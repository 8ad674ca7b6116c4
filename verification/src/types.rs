//! Events, devices and channels.
//!
//! Measured quantities (levels, durations, correlations) are held as the bit patterns of
//! single-precision numbers.

use vstd::prelude::*;
use vstd::string::StringExecFns;

use crate::text::{append_decimal, format_debug, split_trimmed};

verus! {

/// A named, addressable audio channel.
#[derive(Debug, Clone, PartialEq, Eq)]
pub struct Channel {
    /// 0-based channel index within the device.
    pub index: u16,
    /// Source device name.
    pub device: String,
    /// Descriptive label (e.g. "TX1", "host").
    pub label: String,
}

/// A channel, by its contents.
pub struct ChannelView {
    pub index: u16,
    pub device: Seq<char>,
    pub label: Seq<char>,
}

impl View for Channel {
    type V = ChannelView;

    open spec fn view(&self) -> ChannelView {
        ChannelView { index: self.index, device: self.device@, label: self.label@ }
    }
}

/// Whether an audio source is a hardware device or an application.
#[derive(Debug, Clone, Copy, PartialEq, Eq, Structural)]
pub enum DeviceKind {
    Hardware,
    Application,
}

/// Audio device info for enumeration.
#[derive(Debug, Clone, PartialEq, Eq)]
pub struct AudioDevice {
    /// Device name from the OS audio subsystem.
    pub name: String,
    /// Number of input channels.
    pub channels: u16,
    /// Sample rate in Hz.
    pub sample_rate: u32,
    /// Whether this is the DJI MIC MINI device.
    pub is_dji: bool,
    /// Whether this is a hardware device or an application audio source.
    pub kind: DeviceKind,
}

/// A device, by its contents.
pub struct AudioDeviceView {
    pub name: Seq<char>,
    pub channels: u16,
    pub sample_rate: u32,
    pub is_dji: bool,
    pub kind: DeviceKind,
}

impl View for AudioDevice {
    type V = AudioDeviceView;

    open spec fn view(&self) -> AudioDeviceView {
        AudioDeviceView {
            name: self.name@,
            channels: self.channels,
            sample_rate: self.sample_rate,
            is_dji: self.is_dji,
            kind: self.kind,
        }
    }
}

/// Each device of a list by its contents.
pub open spec fn device_views(devices: Seq<AudioDevice>) -> Seq<AudioDeviceView> {
    devices.map_values(|device: AudioDevice| device@)
}

/// Each channel of a list by its contents.
pub open spec fn channel_views(channels: Seq<Channel>) -> Seq<ChannelView> {
    channels.map_values(|channel: Channel| channel@)
}

/// Events emitted by the plugin's methods.
#[derive(Debug, Clone, PartialEq, Eq)]
#[allow(inconsistent_fields)]
pub enum MicEvent {
    /// USB device information.
    DeviceInfo { vendor_id: u16, product_id: u16, name: String, channels: u16, sample_rate: u32 },
    /// List of audio input devices.
    DeviceList { devices: Vec<AudioDevice> },
    /// Audio capture has started.
    CaptureStarted { sample_rate: u32, channels: u16 },
    /// Audio capture has stopped.
    CaptureStopped,
    /// Real-time audio level metering.
    Level { rms_left: u32, rms_right: u32, peak_left: u32, peak_right: u32, timestamp_ms: u64 },
    /// WAV recording has started.
    RecordingStarted { path: String },
    /// WAV recording progress update.
    RecordingProgress { duration_secs: u32, file_size_bytes: u64 },
    /// WAV recording has stopped.
    RecordingStopped { path: String, duration_secs: u32 },
    /// Live monitoring has started.
    MonitorStarted { sample_rate: u32, channels: u16 },
    /// Live monitoring has stopped.
    MonitorStopped,
    /// Current plugin status.
    Status { device_connected: bool },
    /// Live audio data chunk: base64 text of interleaved little-endian PCM samples.
    AudioData { data: String, frames: u32, channels: u16, sample_rate: u32, sequence: u64 },
    /// Per-channel probe analysis.
    ChannelProbe {
        channel: u16,
        label: String,
        rms: u32,
        peak: u32,
        rms_dbfs: u32,
        peak_dbfs: u32,
        noise_floor_dbfs: u32,
        dynamic_range_db: u32,
        has_signal: bool,
        dc_offset: u32,
    },
    /// Summary of channel independence analysis.
    ProbeSummary {
        channels: u16,
        sample_rate: u32,
        analysis_duration_secs: u32,
        channel_correlation: u32,
        channels_independent: bool,
        assessment: String,
    },
    /// Enumeration of available channels.
    ChannelList { channels: Vec<Channel> },
    /// Per-channel mono audio data: base64 text of little-endian PCM samples.
    ChannelAudioData {
        channel: u16,
        label: String,
        data: String,
        frames: u32,
        sample_rate: u32,
        sequence: u64,
    },
    /// Per-channel level metering.
    ChannelLevel { channel: u16, label: String, rms: u32, peak: u32, timestamp_ms: u64 },
    /// Error event.
    Error { message: String },
}

/// An event, by its contents.
#[allow(inconsistent_fields)]
pub enum MicEventView {
    DeviceInfo {
        vendor_id: u16,
        product_id: u16,
        name: Seq<char>,
        channels: u16,
        sample_rate: u32,
    },
    DeviceList { devices: Seq<AudioDeviceView> },
    CaptureStarted { sample_rate: u32, channels: u16 },
    CaptureStopped,
    Level { rms_left: u32, rms_right: u32, peak_left: u32, peak_right: u32, timestamp_ms: u64 },
    RecordingStarted { path: Seq<char> },
    RecordingProgress { duration_secs: u32, file_size_bytes: u64 },
    RecordingStopped { path: Seq<char>, duration_secs: u32 },
    MonitorStarted { sample_rate: u32, channels: u16 },
    MonitorStopped,
    Status { device_connected: bool },
    AudioData { data: Seq<char>, frames: u32, channels: u16, sample_rate: u32, sequence: u64 },
    ChannelProbe {
        channel: u16,
        label: Seq<char>,
        rms: u32,
        peak: u32,
        rms_dbfs: u32,
        peak_dbfs: u32,
        noise_floor_dbfs: u32,
        dynamic_range_db: u32,
        has_signal: bool,
        dc_offset: u32,
    },
    ProbeSummary {
        channels: u16,
        sample_rate: u32,
        analysis_duration_secs: u32,
        channel_correlation: u32,
        channels_independent: bool,
        assessment: Seq<char>,
    },
    ChannelList { channels: Seq<ChannelView> },
    ChannelAudioData {
        channel: u16,
        label: Seq<char>,
        data: Seq<char>,
        frames: u32,
        sample_rate: u32,
        sequence: u64,
    },
    ChannelLevel { channel: u16, label: Seq<char>, rms: u32, peak: u32, timestamp_ms: u64 },
    Error { message: Seq<char> },
}

impl View for MicEvent {
    type V = MicEventView;

    open spec fn view(&self) -> MicEventView {
        match *self {
            MicEvent::DeviceInfo { vendor_id, product_id, name, channels, sample_rate } => {
                MicEventView::DeviceInfo { vendor_id, product_id, name: name@, channels, sample_rate }
            },
            MicEvent::DeviceList { devices } => {
                MicEventView::DeviceList { devices: device_views(devices@) }
            },
            MicEvent::CaptureStarted { sample_rate, channels } => {
                MicEventView::CaptureStarted { sample_rate, channels }
            },
            MicEvent::CaptureStopped => MicEventView::CaptureStopped,
            MicEvent::Level { rms_left, rms_right, peak_left, peak_right, timestamp_ms } => {
                MicEventView::Level { rms_left, rms_right, peak_left, peak_right, timestamp_ms }
            },
            MicEvent::RecordingStarted { path } => MicEventView::RecordingStarted { path: path@ },
            MicEvent::RecordingProgress { duration_secs, file_size_bytes } => {
                MicEventView::RecordingProgress { duration_secs, file_size_bytes }
            },
            MicEvent::RecordingStopped { path, duration_secs } => {
                MicEventView::RecordingStopped { path: path@, duration_secs }
            },
            MicEvent::MonitorStarted { sample_rate, channels } => {
                MicEventView::MonitorStarted { sample_rate, channels }
            },
            MicEvent::MonitorStopped => MicEventView::MonitorStopped,
            MicEvent::Status { device_connected } => MicEventView::Status { device_connected },
            MicEvent::AudioData { data, frames, channels, sample_rate, sequence } => {
                MicEventView::AudioData { data: data@, frames, channels, sample_rate, sequence }
            },
            MicEvent::ChannelProbe {
                channel,
                label,
                rms,
                peak,
                rms_dbfs,
                peak_dbfs,
                noise_floor_dbfs,
                dynamic_range_db,
                has_signal,
                dc_offset,
            } => {
                MicEventView::ChannelProbe {
                    channel,
                    label: label@,
                    rms,
                    peak,
                    rms_dbfs,
                    peak_dbfs,
                    noise_floor_dbfs,
                    dynamic_range_db,
                    has_signal,
                    dc_offset,
                }
            },
            MicEvent::ProbeSummary {
                channels,
                sample_rate,
                analysis_duration_secs,
                channel_correlation,
                channels_independent,
                assessment,
            } => {
                MicEventView::ProbeSummary {
                    channels,
                    sample_rate,
                    analysis_duration_secs,
                    channel_correlation,
                    channels_independent,
                    assessment: assessment@,
                }
            },
            MicEvent::ChannelList { channels } => {
                MicEventView::ChannelList { channels: channel_views(channels@) }
            },
            MicEvent::ChannelAudioData { channel, label, data, frames, sample_rate, sequence } => {
                MicEventView::ChannelAudioData {
                    channel,
                    label: label@,
                    data: data@,
                    frames,
                    sample_rate,
                    sequence,
                }
            },
            MicEvent::ChannelLevel { channel, label, rms, peak, timestamp_ms } => {
                MicEventView::ChannelLevel { channel, label: label@, rms, peak, timestamp_ms }
            },
            MicEvent::Error { message } => MicEventView::Error { message: message@ },
        }
    }
}

/// Each event of a list by its contents.
pub open spec fn event_views(events: Seq<MicEvent>) -> Seq<MicEventView> {
    events.map_values(|event: MicEvent| event@)
}

/// An optional text by its characters.
pub open spec fn optional_text(text: Option<&str>) -> Option<Seq<char>> {
    match text {
        Some(t) => Some(t@),
        None => None,
    }
}

/// The label of a channel that the user gave none: `TX1` and `TX2` for the two channels of a
/// DJI device, else the device's name, a colon and the index.
pub open spec fn default_label(device_name: Seq<char>, is_dji: bool, index: int) -> Seq<char> {
    if is_dji && index == 0 {
        "TX1"@
    } else if is_dji && index == 1 {
        "TX2"@
    } else {
        device_name + ":"@ + decimal_index(index)
    }
}

/// A channel index in decimal.
pub open spec fn decimal_index(index: int) -> Seq<char> {
    crate::text::decimal(index as nat)
}

/// The answer to a label list of the wrong length, of which `listing` is the debug form.
pub open spec fn label_count_message(expected: nat, got: nat, listing: Seq<char>) -> Seq<char> {
    "Expected "@ + crate::text::decimal(expected) + " labels but got "@ + crate::text::decimal(got)
        + ": "@ + listing
}

/// The labels of a device's channels, or the error message if the user's list has the wrong
/// length.
pub open spec fn resolved_labels(
    device_name: Seq<char>,
    is_dji: bool,
    num_channels: u16,
    user_labels: Option<Seq<char>>,
) -> Result<Seq<Seq<char>>, Seq<char>> {
    match user_labels {
        Some(list) => {
            let labels = crate::text::comma_list(list);
            if labels.len() == num_channels {
                Ok(labels)
            } else {
                Err(
                    label_count_message(
                        num_channels as nat,
                        labels.len(),
                        crate::text::listed(labels),
                    ),
                )
            }
        },
        None => Ok(
            Seq::new(num_channels as nat, |i: int| default_label(device_name, is_dji, i)),
        ),
    }
}

/// The contents of a list of texts, or of the message that stands in its place.
pub open spec fn texts_or_message(result: Result<Vec<String>, String>) -> Result<
    Seq<Seq<char>>,
    Seq<char>,
> {
    match result {
        Ok(list) => Ok(crate::text::texts(list@)),
        Err(message) => Err(message@),
    }
}

/// The error for a label list of the wrong length; `listing` is the debug form of the list.
pub fn label_count_error(expected: u16, got: usize, listing: &str) -> (message: String)
    ensures
        message@ == label_count_message(expected as nat, got as nat, listing@),
{
    let mut message = String::new();
    message.append("Expected ");
    append_decimal(&mut message, expected as u64);
    message.append(" labels but got ");
    append_decimal(&mut message, got as u64);
    message.append(": ");
    message.append(listing);
    assert(message@ =~= label_count_message(expected as nat, got as nat, listing@));
    message
}

/// The label of a channel that the user gave none.
pub fn default_channel_label(device_name: &str, is_dji: bool, index: u16) -> (label: String)
    ensures
        label@ == default_label(device_name@, is_dji, index as int),
{
    if is_dji && index == 0 {
        "TX1".to_owned()
    } else if is_dji && index == 1 {
        "TX2".to_owned()
    } else {
        let mut label = device_name.to_owned();
        label.append(":");
        append_decimal(&mut label, index as u64);
        label
    }
}

/// Resolves the channel labels of a device.
///
/// - DJI devices: `TX1`, `TX2`.
/// - Other devices: `{device_name}:0`, `{device_name}:1`, ...
/// - With `user_labels` (comma-separated) those instead; they must match the channel count.
pub fn resolve_channel_labels(
    device_name: &str,
    is_dji: bool,
    num_channels: u16,
    user_labels: Option<&str>,
) -> (labels: Result<Vec<String>, String>)
    ensures
        texts_or_message(labels) == resolved_labels(
            device_name@,
            is_dji,
            num_channels,
            optional_text(user_labels),
        ),
{
    if let Some(list) = user_labels {
        let labels = split_trimmed(list);
        proof {
            assert(crate::text::texts(labels@).len() == labels@.len());
        }
        if labels.len() != num_channels as usize {
            let listing = format_debug(&labels);
            return Err(label_count_error(num_channels, labels.len(), listing.as_str()));
        }
        return Ok(labels);
    }
    let mut labels: Vec<String> = Vec::new();
    let mut index: u16 = 0;
    while index < num_channels
        invariant
            index <= num_channels,
            labels@.len() == index,
            forall|i: int|
                0 <= i < index ==> (#[trigger] labels@[i])@ == default_label(
                    device_name@,
                    is_dji,
                    i,
                ),
        decreases num_channels - index,
    {
        labels.push(default_channel_label(device_name, is_dji, index));
        index += 1;
    }
    assert(crate::text::texts(labels@) =~= Seq::new(
        num_channels as nat,
        |i: int| default_label(device_name@, is_dji, i),
    ));
    Ok(labels)
}

/// Where labels are resolved there is one for each channel, and resolving fails only on a
/// list by the user whose length is another.
pub proof fn law_one_label_per_channel(
    device_name: Seq<char>,
    is_dji: bool,
    num_channels: u16,
    user_labels: Option<Seq<char>>,
)
    ensures
        match resolved_labels(device_name, is_dji, num_channels, user_labels) {
            Ok(labels) => labels.len() == num_channels,
            Err(_) => user_labels is Some && crate::text::comma_list(user_labels->0).len()
                != num_channels,
        },
{
}

/// Labels that the user did not choose tell the channels of a device apart.
pub proof fn law_default_labels_differ(device_name: Seq<char>, is_dji: bool, i: int, j: int)
    requires
        0 <= i < j,
    ensures
        default_label(device_name, is_dji, i) != default_label(device_name, is_dji, j),
{
    reveal_strlit("TX1");
    reveal_strlit("TX2");
    reveal_strlit(":");
    crate::text::law_decimal_reads_back(i as nat);
    crate::text::law_decimal_reads_back(j as nat);
    let a = default_label(device_name, is_dji, i);
    let b = default_label(device_name, is_dji, j);
    let at = device_name.len() as int;
    if a == b {
        if is_dji && i < 2 && j < 2 {
            assert(a[2] != b[2]);
        } else if is_dji && i < 2 {
            assert(b[at] == ':');
            assert(a.len() == 3 && at < 3);
            assert(a[0] != ':' && a[1] != ':' && a[2] != ':');
            assert(a[at] != ':');
        } else {
            assert(a.skip(at + 1) =~= decimal_index(i));
            assert(b.skip(at + 1) =~= decimal_index(j));
        }
    }
}

/// Seen by its contents an event shows each of its fields as what it is.
pub proof fn law_events_show_their_fields(event: MicEvent)
    ensures
        match event {
            MicEvent::DeviceInfo { vendor_id, product_id, name, channels, sample_rate } => event@
                == (MicEventView::DeviceInfo {
                vendor_id,
                product_id,
                name: name@,
                channels,
                sample_rate,
            }),
            MicEvent::DeviceList { devices } => event@ is DeviceList
                && event@->devices.len() == devices@.len() && forall|i: int|
                0 <= i < devices@.len() ==> event@->devices[i] == (AudioDeviceView {
                    name: (#[trigger] devices@[i]).name@,
                    channels: devices@[i].channels,
                    sample_rate: devices@[i].sample_rate,
                    is_dji: devices@[i].is_dji,
                    kind: devices@[i].kind,
                }),
            MicEvent::CaptureStarted { sample_rate, channels } => event@
                == (MicEventView::CaptureStarted { sample_rate, channels }),
            MicEvent::CaptureStopped => event@ is CaptureStopped,
            MicEvent::Level { rms_left, rms_right, peak_left, peak_right, timestamp_ms } => event@
                == (MicEventView::Level {
                rms_left,
                rms_right,
                peak_left,
                peak_right,
                timestamp_ms,
            }),
            MicEvent::RecordingStarted { path } => event@ == (MicEventView::RecordingStarted {
                path: path@,
            }),
            MicEvent::RecordingProgress { duration_secs, file_size_bytes } => event@
                == (MicEventView::RecordingProgress { duration_secs, file_size_bytes }),
            MicEvent::RecordingStopped { path, duration_secs } => event@
                == (MicEventView::RecordingStopped { path: path@, duration_secs }),
            MicEvent::MonitorStarted { sample_rate, channels } => event@
                == (MicEventView::MonitorStarted { sample_rate, channels }),
            MicEvent::MonitorStopped => event@ is MonitorStopped,
            MicEvent::Status { device_connected } => event@ == (MicEventView::Status {
                device_connected,
            }),
            MicEvent::AudioData { data, frames, channels, sample_rate, sequence } => event@
                == (MicEventView::AudioData {
                data: data@,
                frames,
                channels,
                sample_rate,
                sequence,
            }),
            MicEvent::ChannelProbe {
                channel,
                label,
                rms,
                peak,
                rms_dbfs,
                peak_dbfs,
                noise_floor_dbfs,
                dynamic_range_db,
                has_signal,
                dc_offset,
            } => event@ == (MicEventView::ChannelProbe {
                channel,
                label: label@,
                rms,
                peak,
                rms_dbfs,
                peak_dbfs,
                noise_floor_dbfs,
                dynamic_range_db,
                has_signal,
                dc_offset,
            }),
            MicEvent::ProbeSummary {
                channels,
                sample_rate,
                analysis_duration_secs,
                channel_correlation,
                channels_independent,
                assessment,
            } => event@ == (MicEventView::ProbeSummary {
                channels,
                sample_rate,
                analysis_duration_secs,
                channel_correlation,
                channels_independent,
                assessment: assessment@,
            }),
            MicEvent::ChannelList { channels } => event@ is ChannelList
                && event@->ChannelList_channels.len() == channels@.len() && forall|i: int|
                0 <= i < channels@.len() ==> event@->ChannelList_channels[i] == (ChannelView {
                    index: (#[trigger] channels@[i]).index,
                    device: channels@[i].device@,
                    label: channels@[i].label@,
                }),
            MicEvent::ChannelAudioData { channel, label, data, frames, sample_rate, sequence } => event@
                == (MicEventView::ChannelAudioData {
                channel,
                label: label@,
                data: data@,
                frames,
                sample_rate,
                sequence,
            }),
            MicEvent::ChannelLevel { channel, label, rms, peak, timestamp_ms } => event@
                == (MicEventView::ChannelLevel { channel, label: label@, rms, peak, timestamp_ms }),
            MicEvent::Error { message } => event@ == (MicEventView::Error { message: message@ }),
        },
{
}

/// A list seen by its contents shows every element in its place.
pub proof fn law_lists_show_their_elements(
    events: Seq<MicEvent>,
    devices: Seq<AudioDevice>,
    channels: Seq<Channel>,
)
    ensures
        event_views(events).len() == events.len(),
        forall|i: int|
            0 <= i < events.len() ==> event_views(events)[i] == (#[trigger] events[i])@,
        device_views(devices).len() == devices.len(),
        forall|i: int|
            0 <= i < devices.len() ==> device_views(devices)[i] == (#[trigger] devices[i])@,
        channel_views(channels).len() == channels.len(),
        forall|i: int|
            0 <= i < channels.len() ==> channel_views(channels)[i] == (#[trigger] channels[i])@,
{
}

/// The channels of a DJI device are called `TX1` and `TX2`; any other label is the name of the
/// device, a colon and the index in decimal.
pub proof fn law_default_label_names_channel(device_name: Seq<char>, is_dji: bool, index: int)
    requires
        0 <= index,
    ensures
        is_dji && index == 0 ==> default_label(device_name, is_dji, index) == seq!['T', 'X', '1'],
        is_dji && index == 1 ==> default_label(device_name, is_dji, index) == seq!['T', 'X', '2'],
        !is_dji || index > 1 ==> {
            let label = default_label(device_name, is_dji, index);
            &&& label.len() > device_name.len()
            &&& label.take(device_name.len() as int) == device_name
            &&& label[device_name.len() as int] == ':'
            &&& label.skip(device_name.len() as int + 1) == crate::text::decimal(index as nat)
        },
{
    reveal_strlit("TX1");
    reveal_strlit("TX2");
    reveal_strlit(":");
    let label = default_label(device_name, is_dji, index);
    if is_dji && index == 0 {
        assert(label =~= seq!['T', 'X', '1']);
    } else if is_dji && index == 1 {
        assert(label =~= seq!['T', 'X', '2']);
    } else {
        assert(label.take(device_name.len() as int) =~= device_name);
        assert(label.skip(device_name.len() as int + 1) =~= crate::text::decimal(index as nat));
    }
}

/// A list by the user gives the labels in its own order if it has one for each channel, and is
/// refused otherwise, naming both numbers; without a list every channel has its own default.
pub proof fn law_labels_come_from_user_or_device(
    device_name: Seq<char>,
    is_dji: bool,
    num_channels: u16,
    user_labels: Option<Seq<char>>,
)
    ensures
        match (user_labels, resolved_labels(device_name, is_dji, num_channels, user_labels)) {
            (Some(list), Ok(labels)) => labels.len() == num_channels && labels
                == crate::text::comma_list(list),
            (Some(list), Err(message)) => {
                let entries = crate::text::comma_list(list);
                let start = "Expected "@ + crate::text::decimal(num_channels as nat)
                    + " labels but got "@ + crate::text::decimal(entries.len());
                &&& entries.len() != num_channels
                &&& start.is_prefix_of(message)
                &&& message == start + ": "@ + crate::text::listed(entries)
            },
            (None, Ok(labels)) => labels.len() == num_channels && forall|i: int|
                0 <= i < num_channels ==> #[trigger] labels[i] == default_label(
                    device_name,
                    is_dji,
                    i,
                ),
            (None, Err(_)) => false,
        },
{
    if let Some(list) = user_labels {
        let entries = crate::text::comma_list(list);
        if entries.len() != num_channels {
            let start = "Expected "@ + crate::text::decimal(num_channels as nat)
                + " labels but got "@ + crate::text::decimal(entries.len());
            let message = start + ": "@ + crate::text::listed(entries);
            assert(start =~= message.subrange(0, start.len() as int));
        }
    }
}

/// A text that is given is taken as it is, also where it is empty, and one that is not given is
/// none; labels and messages are the ones that came out.
pub proof fn law_given_is_given(text: &str, labels: Vec<String>, message: String)
    ensures
        optional_text(Some(text)) == Some(text@),
        optional_text(None) is None,
        texts_or_message(Ok(labels)) == Ok::<Seq<Seq<char>>, Seq<char>>(
            crate::text::texts(labels@),
        ),
        texts_or_message(Err(message)) == Err::<Seq<Seq<char>>, Seq<char>>(message@),
{
}

} // verus!
