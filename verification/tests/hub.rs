use plexus_listen::capture::AudioSource;
use plexus_listen::device::{StreamConfig, UsbDeviceInfo};
use plexus_listen::hub::{
    assess, chunk_duration, is_independent, parse_selection, probe_duration, LevelSession, MicHub,
    RecordStep, Step, CROSSTALK, IDENTICAL, ONE, SAME_SOURCE,
};
use plexus_listen::meter::{Arithmetic, SILENCE_DBFS};
use plexus_listen::pcm::{encode_samples, from_bytes};
use plexus_listen::ring::{create_ring_buffer, push_samples};
use plexus_listen::types::{AudioDevice, Channel, DeviceKind, MicEvent};

use base64::Engine;

fn source(name: &str, channels: u16) -> AudioSource {
    AudioSource::Hardware {
        index: 0,
        name: Some(name.to_string()),
        config: StreamConfig { channels, sample_rate: 48000 },
    }
}

fn first(samples: &[u32]) -> u32 {
    samples[0] + 1000
}

fn error(message: &str) -> MicEvent {
    MicEvent::Error { message: message.to_string() }
}

fn device(name: &str, channels: u16, is_dji: bool) -> AudioDevice {
    AudioDevice {
        name: name.to_string(),
        channels,
        sample_rate: 48000,
        is_dji,
        kind: DeviceKind::Hardware,
    }
}

fn channel(index: u16, device: &str, label: &str) -> Channel {
    Channel { index, device: device.to_string(), label: label.to_string() }
}

#[test]
fn durations_are_clamped() {
    assert_eq!(chunk_duration(None), 50);
    assert_eq!(chunk_duration(Some(0)), 10);
    assert_eq!(chunk_duration(Some(20)), 20);
    assert_eq!(chunk_duration(Some(u32::MAX)), 500);
    assert_eq!(probe_duration(None), 1000);
    assert_eq!(probe_duration(Some(199)), 200);
    assert_eq!(probe_duration(Some(2000)), 2000);
    assert_eq!(probe_duration(Some(5001)), 5000);
}

#[test]
fn info_of_a_usb_device() {
    let hub = MicHub::new();
    let usb = UsbDeviceInfo {
        vendor_id: 0x2CA3,
        product_id: 0x42,
        name: "Mic".to_string(),
        serial: None,
        manufacturer: None,
    };
    let event = hub.info(Some(usb.clone()), || None);
    let expected = |channels, sample_rate| MicEvent::DeviceInfo {
        vendor_id: 0x2CA3,
        product_id: 0x42,
        name: "Mic".to_string(),
        channels,
        sample_rate,
    };
    assert_eq!(event, expected(2, 48000));
    let event = hub.info(Some(usb), || Some(StreamConfig { channels: 1, sample_rate: 16000 }));
    assert_eq!(event, expected(1, 16000));
    assert_eq!(
        MicHub::default().info(None, || unreachable!()),
        error("DJI MIC MINI USB device not found")
    );
}

#[test]
fn lists_and_status() {
    let hub = MicHub::new();
    let devices = vec![device("a", 1, false)];
    assert_eq!(hub.list_devices(devices.clone()), MicEvent::DeviceList { devices });
    assert_eq!(hub.status(true), MicEvent::Status { device_connected: true });
    assert_eq!(hub.status(false), MicEvent::Status { device_connected: false });
}

#[test]
fn levels_tick_every_fifty_milliseconds() {
    let mut session = MicHub::new().levels(&source("x", 2));
    let (mut producer, mut consumer) = create_ring_buffer(2);
    assert_eq!(session.tick(false, &mut consumer, &first), Step::Continue(vec![]));
    push_samples(&mut producer, &[1, 2, 3]);
    let level = MicEvent::Level {
        rms_left: 1001,
        rms_right: 1002,
        peak_left: 3,
        peak_right: 2,
        timestamp_ms: 100,
    };
    assert_eq!(session.tick(false, &mut consumer, &first), Step::Continue(vec![level]));
    push_samples(&mut producer, &[1]);
    let lost = session.tick(true, &mut consumer, &first);
    assert_eq!(lost, Step::Stop(error("Audio device disconnected")));
    assert_eq!(session, LevelSession { channels: 2, timestamp_ms: 150 });
}

#[test]
fn a_monitor_announces_itself() {
    let (session, event) = MicHub::new().monitor(&source("x", 2));
    assert_eq!(event, MicEvent::MonitorStarted { sample_rate: 48000, channels: 2 });
    assert_eq!(session, LevelSession { channels: 2, timestamp_ms: 0 });
}

#[test]
fn chunks_are_numbered_and_lose_nothing() {
    let (mut stream, event) = MicHub::new().stream_audio(&source("x", 2), Some(20));
    assert_eq!(event, MicEvent::CaptureStarted { sample_rate: 48000, channels: 2 });
    assert_eq!(stream.chunk_ms, 20);
    let (mut producer, mut consumer) = create_ring_buffer(2);
    let mut heard: Vec<u32> = Vec::new();
    let mut sent: Vec<u32> = Vec::new();
    let mut numbers: Vec<u64> = Vec::new();
    for round in 0..10u32 {
        let window: Vec<u32> = (0..round % 4).map(|i| round * 100 + i).collect();
        push_samples(&mut producer, &window);
        sent.extend(&window);
        match stream.tick(false, &mut consumer) {
            Step::Continue(events) => {
                assert_eq!(events.len(), if window.is_empty() { 0 } else { 1 });
                for event in events {
                    match event {
                        MicEvent::AudioData { data, frames, channels, sample_rate, sequence } => {
                            assert_eq!(frames, window.len() as u32 / 2);
                            assert_eq!((channels, sample_rate), (2, 48000));
                            numbers.push(sequence);
                            let bytes =
                                base64::engine::general_purpose::STANDARD.decode(data).unwrap();
                            heard.extend(from_bytes(&bytes));
                        }
                        _ => unreachable!(),
                    }
                }
            }
            Step::Stop(_) => unreachable!(),
        }
    }
    assert_eq!(heard, sent);
    assert_eq!(numbers, (0..7).collect::<Vec<u64>>());
    assert_eq!(stream.tick(true, &mut consumer), Step::Stop(error("Audio device disconnected")));
}

#[test]
fn selections_of_channels() {
    assert_eq!(parse_selection(None, 3), Ok(vec![0, 1, 2]));
    assert_eq!(parse_selection(Some("0"), 2), Ok(vec![0]));
    assert_eq!(parse_selection(Some(" 1 ,0,1"), 2), Ok(vec![1, 0, 1]));
    assert_eq!(
        parse_selection(Some("0,2,x"), 2),
        Err("Channel index 2 out of range (device has 2 channels)".to_string())
    );
    assert_eq!(
        parse_selection(Some("0, x ,9"), 2),
        Err("Invalid channel index: 'x'".to_string())
    );
    assert_eq!(parse_selection(Some(""), 2), Err("Invalid channel index: ''".to_string()));
    assert_eq!(
        parse_selection(Some("70000"), 2),
        Err("Invalid channel index: '70000'".to_string())
    );
}

#[test]
fn channel_streams_report_wrong_requests() {
    let hub = MicHub::new();
    let two = source("x", 2);
    let wrong = hub.stream_channels(&two, Some("9"), Some("a"), None).unwrap_err();
    assert_eq!(wrong, error("Expected 2 labels but got 1: [\"a\"]"));
    let wrong = hub.stream_channels(&two, Some("9"), Some("a,b"), None).unwrap_err();
    assert_eq!(wrong, error("Channel index 9 out of range (device has 2 channels)"));
}

#[test]
fn channel_streams_emit_audio_and_level_per_channel() {
    let (mut stream, event) = MicHub::new()
        .stream_channels(&source("DJI", 2), Some("1,0"), None, Some(30))
        .unwrap();
    assert_eq!(event, MicEvent::CaptureStarted { sample_rate: 48000, channels: 2 });
    let (mut producer, mut consumer) = create_ring_buffer(2);
    assert_eq!(stream.tick(false, &mut consumer, &first), Step::Continue(vec![]));
    for round in 0..2u64 {
        push_samples(&mut producer, &[1, 2, 3]);
        let data = |channel: u16, label: &str, samples: &[u32]| MicEvent::ChannelAudioData {
            channel,
            label: label.to_string(),
            data: encode_samples(samples),
            frames: samples.len() as u32,
            sample_rate: 48000,
            sequence: round,
        };
        let level = |channel: u16, label: &str, rms: u32, peak: u32| MicEvent::ChannelLevel {
            channel,
            label: label.to_string(),
            rms,
            peak,
            timestamp_ms: 60 + 30 * round,
        };
        let expected = vec![
            data(1, "TX2", &[2]),
            level(1, "TX2", 1002, 2),
            data(0, "TX1", &[1, 3]),
            level(0, "TX1", 1001, 3),
        ];
        assert_eq!(stream.tick(false, &mut consumer, &first), Step::Continue(expected));
    }
    let lost = stream.tick(true, &mut consumer, &first);
    assert_eq!(lost, Step::Stop(error("Audio device disconnected")));
    assert_eq!((stream.sequence, stream.timestamp_ms), (2, 120));
}

#[test]
fn a_channel_without_samples_is_silent() {
    let (mut stream, _) =
        MicHub::new().stream_channels(&source("x", 2), None, Some("l,r"), None).unwrap();
    assert_eq!(stream.chunk_ms, 50);
    let events = stream.channel_events(&vec![5], &first);
    assert_eq!(events.len(), 4);
    assert_eq!(
        events[3],
        MicEvent::ChannelLevel {
            channel: 1,
            label: "r".to_string(),
            rms: 0,
            peak: 0,
            timestamp_ms: 0,
        }
    );
}

fn seconds(frames: u64, rate: u32) -> u32 {
    (frames as f32 / rate as f32).to_bits()
}

fn millis(secs: u32) -> u64 {
    (f32::from_bits(secs) * 1000.0) as u64
}

#[test]
fn recordings_write_report_and_stop() {
    let (mut session, event) =
        MicHub::new().record("/tmp/r.wav".to_string(), &source("x", 2), Some(3000));
    assert_eq!(event, MicEvent::RecordingStarted { path: "/tmp/r.wav".to_string() });
    let (mut producer, mut consumer) = create_ring_buffer(2);
    assert_eq!(session.tick(false, 0, &mut consumer), RecordStep::Wait);
    push_samples(&mut producer, &vec![7; 48000]);
    let step = session.tick(false, 2_999_999_999, &mut consumer);
    let window = match step {
        RecordStep::Write(window) => window,
        _ => unreachable!(),
    };
    assert_eq!(window.len(), 48000);
    let level = |timestamp_ms| MicEvent::Level {
        rms_left: 1007,
        rms_right: 1007,
        peak_left: 7,
        peak_right: 7,
        timestamp_ms,
    };
    let report = session.written(&window, Ok(()), 999_999_999, &first, seconds, millis);
    assert_eq!((report.events, report.finish), (vec![level(500)], false));
    let report = session.written(&window, Ok(()), 1_000_000_000, &first, seconds, millis);
    let progress = MicEvent::RecordingProgress {
        duration_secs: 1.0f32.to_bits(),
        file_size_bytes: 44 + 96000 * 4,
    };
    assert_eq!((report.events, report.finish), (vec![level(1000), progress], false));
    let report = session.written(&window, Ok(()), 1_999_999_999, &first, seconds, millis);
    assert_eq!(report.events, vec![level(1500)]);
    assert_eq!(session.tick(false, 3_000_000_000, &mut consumer), RecordStep::Finish(None));
    assert_eq!(
        session.tick(true, 3_000_000_000, &mut consumer),
        RecordStep::Finish(Some(error("Audio device disconnected")))
    );
    let stopped = session.clone().finished(Ok(()), seconds);
    assert_eq!(
        stopped,
        MicEvent::RecordingStopped {
            path: "/tmp/r.wav".to_string(),
            duration_secs: 1.5f32.to_bits(),
        }
    );
    assert_eq!(session.finished(Err("full".to_string()), seconds), error("full"));
}

#[test]
fn failed_writes_end_a_recording() {
    let (mut session, _) = MicHub::new().record("x".to_string(), &source("x", 1), None);
    let report =
        session.written(&vec![1, 2], Err("disk full".to_string()), 0, &first, seconds, millis);
    assert_eq!((report.events, report.finish), (vec![error("disk full")], true));
    assert_eq!(session.recorder.frames_written, 0);
    let (_producer, mut consumer) = create_ring_buffer(1);
    assert_eq!(session.tick(false, u128::MAX, &mut consumer), RecordStep::Wait);
}

fn count(samples: &[u32]) -> u32 {
    samples.len() as u32
}

fn last(samples: &[u32]) -> u32 {
    samples[samples.len() - 1]
}

fn twice(linear: u32) -> u32 {
    2 * linear
}

fn larger(a: u32, b: u32) -> u32 {
    a.max(b)
}

fn between(a: u32, b: u32) -> u32 {
    a - b
}

fn spread(samples: usize, rate: u32, channels: u16) -> u32 {
    (samples as f32 / (rate as f32 * channels as f32)).to_bits()
}

fn decimals(value: u32) -> String {
    format!("{:.3}", f32::from_bits(value))
}

#[test]
fn probes_collect_for_their_duration() {
    let mut session = MicHub::new().probe(&source("x", 2), Some(1));
    assert_eq!(session.duration_ms, 200);
    assert!(session.collecting(199_999_999));
    assert!(!session.collecting(200_000_000));
    let (mut producer, mut consumer) = create_ring_buffer(2);
    assert_eq!(session.collect(false, &mut consumer), None);
    push_samples(&mut producer, &[1, 2]);
    assert_eq!(session.collect(false, &mut consumer), None);
    push_samples(&mut producer, &[3]);
    assert_eq!(session.collect(false, &mut consumer), None);
    assert_eq!(session.samples, vec![1, 2, 3]);
    assert_eq!(
        session.collect(true, &mut consumer),
        Some(error("Audio device disconnected"))
    );
}

#[test]
fn probes_report_channels_and_summary() {
    let mut session = MicHub::new().probe(&source("x", 2), None);
    session.samples = vec![1, 0, 3, 0];
    let arithmetic = Arithmetic {
        rms: count,
        mean: last,
        decibels: twice,
        sum: larger,
        difference: between,
    };
    let events = session.report(
        "DJI",
        true,
        &arithmetic,
        |a: &[u32], b: &[u32]| {
            assert_eq!((a, b), (&[1, 3][..], &[0, 0][..]));
            (-0.97f32).to_bits()
        },
        decimals,
        spread,
    );
    assert_eq!(events.len(), 3);
    assert_eq!(
        events[0],
        MicEvent::ChannelProbe {
            channel: 0,
            label: "TX1".to_string(),
            rms: 2,
            peak: 3,
            rms_dbfs: 4,
            peak_dbfs: 6,
            noise_floor_dbfs: 2,
            dynamic_range_db: 4,
            has_signal: false,
            dc_offset: 3,
        }
    );
    assert_eq!(
        events[1],
        MicEvent::ChannelProbe {
            channel: 1,
            label: "TX2".to_string(),
            rms: 2,
            peak: 0,
            rms_dbfs: 4,
            peak_dbfs: SILENCE_DBFS,
            noise_floor_dbfs: 2,
            dynamic_range_db: SILENCE_DBFS - 2,
            has_signal: false,
            dc_offset: 0,
        }
    );
    assert_eq!(
        events[2],
        MicEvent::ProbeSummary {
            channels: 2,
            sample_rate: 48000,
            analysis_duration_secs: spread(4, 48000, 2),
            channel_correlation: (-0.97f32).to_bits(),
            channels_independent: false,
            assessment: "Channels are highly correlated (-0.970) — likely the same source with minor differences.".to_string(),
        }
    );
}

#[test]
fn probes_of_one_channel_and_of_nothing() {
    let mut session = MicHub::new().probe(&source("x", 1), None);
    let no_pair = |_: &[u32], _: &[u32]| -> u32 { unreachable!() };
    let arithmetic = Arithmetic {
        rms: count,
        mean: last,
        decibels: twice,
        sum: larger,
        difference: between,
    };
    let events = session.report("x", false, &arithmetic, no_pair, decimals, spread);
    assert_eq!(events, vec![error("No audio samples captured during probe window")]);
    session.samples = vec![9];
    let events = session.report("x", false, &arithmetic, no_pair, decimals, spread);
    assert_eq!(events.len(), 2);
    assert_eq!(
        events[1],
        MicEvent::ProbeSummary {
            channels: 1,
            sample_rate: 48000,
            analysis_duration_secs: spread(1, 48000, 1),
            channel_correlation: 1.0f32.to_bits(),
            channels_independent: false,
            assessment: "Single channel device — no independence analysis.".to_string(),
        }
    );
}

#[test]
fn correlations_are_assessed_as_numbers() {
    assert_eq!(f32::from_bits(IDENTICAL), 0.99);
    assert_eq!(f32::from_bits(SAME_SOURCE), 0.95);
    assert_eq!(f32::from_bits(CROSSTALK), 0.5);
    assert_eq!(f32::from_bits(ONE), 1.0);
    for corr in [
        1.0f32, -1.0, 0.995, 0.99, 0.97, -0.96, 0.95, 0.9499, 0.7, -0.51, 0.5, 0.2, 0.0, -0.0,
        f32::NAN, f32::INFINITY,
    ] {
        let shown = format!("{:.3}", corr);
        let expected = if corr.abs() > 0.99 {
            "Channels are identical — mono signal duplicated across both channels. Only one transmitter active or mic in mono mode.".to_string()
        } else if corr.abs() > 0.95 {
            format!("Channels are highly correlated ({:.3}) — likely the same source with minor differences.", corr)
        } else if corr.abs() > 0.5 {
            format!("Channels are moderately correlated ({:.3}) — partially independent signals, some crosstalk.", corr)
        } else {
            format!("Channels are independent ({:.3}) — carrying distinct audio.", corr)
        };
        assert_eq!(assess(corr.to_bits(), &shown), expected);
        assert_eq!(is_independent(corr.to_bits()), corr.abs() < 0.95);
    }
}

#[test]
fn channels_of_dji_devices_are_preferred() {
    let hub = MicHub::new();
    let devices = vec![device("a", 1, false), device("DJI", 2, true), device("b", 0, false)];
    assert_eq!(
        hub.list_channels(devices.clone(), None, None),
        MicEvent::ChannelList {
            channels: vec![channel(0, "DJI", "TX1"), channel(1, "DJI", "TX2")],
        }
    );
    assert_eq!(
        hub.list_channels(devices, Some("A"), None),
        MicEvent::ChannelList { channels: vec![channel(0, "a", "a:0")] }
    );
    let plain = vec![device("a", 1, false), device("b", 2, false)];
    assert_eq!(
        hub.list_channels(plain.clone(), None, None),
        MicEvent::ChannelList {
            channels: vec![
                channel(0, "a", "a:0"),
                channel(0, "b", "b:0"),
                channel(1, "b", "b:1"),
            ],
        }
    );
    assert_eq!(
        hub.list_channels(plain, Some("none"), Some("x")),
        MicEvent::ChannelList { channels: vec![] }
    );
}

#[test]
fn channel_labels_must_fit_every_device() {
    let hub = MicHub::new();
    let devices = vec![device("a", 2, false), device("b", 1, false)];
    assert_eq!(
        hub.list_channels(devices.clone(), None, Some("host,guest")),
        error("Expected 1 labels but got 2: [\"host\", \"guest\"]")
    );
    assert_eq!(
        hub.list_channels(devices, Some("a"), Some("host,guest")),
        MicEvent::ChannelList {
            channels: vec![channel(0, "a", "host"), channel(1, "a", "guest")],
        }
    );
}

#[test]
fn listed_channels_can_be_streamed() {
    let hub = MicHub::new();
    let event = hub.list_channels(vec![device("DJI", 3, true)], None, None);
    let channels = match event {
        MicEvent::ChannelList { channels } => channels,
        _ => unreachable!(),
    };
    assert_eq!(channels.len(), 3);
    for listed in channels {
        let index = listed.index.to_string();
        let (stream, _) =
            hub.stream_channels(&source("DJI", 3), Some(&index), None, None).unwrap();
        assert_eq!(stream.selected, vec![listed.index]);
        assert_eq!(stream.labels[listed.index as usize], listed.label);
    }
}

#[test]
fn a_selected_channel_loses_nothing_over_windows() {
    let (mut stream, _) =
        MicHub::new().stream_channels(&source("x", 2), Some("1"), None, None).unwrap();
    let mut heard: Vec<u32> = Vec::new();
    for window in [vec![1, 2, 3, 4], vec![], vec![5, 6], vec![7, 8, 9, 10]] {
        for event in stream.channel_events(&window, &first) {
            if let MicEvent::ChannelAudioData { data, .. } = event {
                let bytes = base64::engine::general_purpose::STANDARD.decode(data).unwrap();
                heard.extend(from_bytes(&bytes));
            }
        }
    }
    assert_eq!(heard, vec![2, 4, 6, 8, 10]);
}

#[test]
fn recordings_count_frames_split_over_windows() {
    let (mut session, _) = MicHub::new().record("x".to_string(), &source("x", 2), None);
    session.written(&vec![1], Ok(()), 0, &first, seconds, millis);
    session.written(&vec![2], Ok(()), 0, &first, seconds, millis);
    assert_eq!(session.recorder.frames_written, 1);
    assert_eq!(
        session.finished(Ok(()), seconds),
        MicEvent::RecordingStopped {
            path: "x".to_string(),
            duration_secs: (1.0f32 / 48000.0).to_bits(),
        }
    );
}
