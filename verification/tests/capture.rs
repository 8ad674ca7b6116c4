use plexus_listen::capture::{
    is_device_connected, is_dji_device_connected, open_audio_source, open_input_device,
    AudioSource, ConfigAnswer,
};
use plexus_listen::device::{find_audio_device, StreamConfig, SupportedConfig};
use plexus_listen::sck::AppSource;

fn names(list: &[&str]) -> Vec<Option<String>> {
    list.iter().map(|n| Some(n.to_string())).collect()
}

fn app(name: &str, pid: i32) -> AppSource {
    AppSource { name: name.to_string(), bundle_id: String::new(), pid }
}

fn stereo(_: usize) -> ConfigAnswer {
    ConfigAnswer {
        supported: Some(vec![SupportedConfig { channels: 2, min_rate: 8000, max_rate: 96000 }]),
        default: None,
    }
}

fn by_place(index: usize) -> ConfigAnswer {
    ConfigAnswer {
        supported: Some(Vec::new()),
        default: Some(StreamConfig { channels: 1, sample_rate: 1000 + index as u32 }),
    }
}

fn mute(_: usize) -> ConfigAnswer {
    ConfigAnswer { supported: None, default: Some(StreamConfig { channels: 2, sample_rate: 48000 }) }
}

fn no_apps() -> Vec<AppSource> {
    Vec::new()
}

fn some_apps() -> Vec<AppSource> {
    vec![app("Zoom", 1), app("Music", 2)]
}

#[test]
fn input_devices_are_opened_by_name() {
    let list = names(&["Built-in", "DJI MIC"]);
    let config = StreamConfig { channels: 2, sample_rate: 48000 };
    assert_eq!(open_input_device(&list, None, stereo), Ok((1, config)));
    let opened = open_input_device(&list, Some("built"), by_place).unwrap();
    assert_eq!(opened, (0, StreamConfig { channels: 1, sample_rate: 1000 }));
}

#[test]
fn missing_input_devices_are_reported() {
    let list = names(&["Built-in"]);
    assert_eq!(
        open_input_device(&list, Some("usb"), stereo),
        Err("Audio input device matching 'usb' not found".to_string())
    );
    assert_eq!(
        open_input_device(&list, None, stereo),
        Err("No audio input device found".to_string())
    );
    assert_eq!(
        open_input_device(&list, Some("in"), mute),
        Err("Could not determine stream config for device".to_string())
    );
}

#[test]
fn hardware_comes_before_applications() {
    let list = names(&["Zoom H6", "dji"]);
    let source = open_audio_source(&list, Some("zoom"), by_place, some_apps).unwrap();
    assert_eq!(source.name(), "Zoom H6");
    assert_eq!((source.sample_rate(), source.channels()), (1000, 1));
    assert!(!source.is_dji());
    let source = open_audio_source(&list, Some("music"), stereo, some_apps).unwrap();
    assert_eq!(source, AudioSource::App(app("Music", 2)));
    assert_eq!((source.sample_rate(), source.channels()), (48000, 2));
    assert_eq!(source.name(), "Music");
    assert!(!source.is_dji());
}

#[test]
fn without_a_name_only_hardware_is_opened() {
    let source = open_audio_source(&names(&["x", "dji"]), None, by_place, some_apps).unwrap();
    assert_eq!(source.sample_rate(), 1001);
    assert!(source.is_dji());
    assert_eq!(
        open_audio_source(&names(&["x"]), None, stereo, some_apps),
        Err("No audio input device found".to_string())
    );
    assert_eq!(
        open_audio_source(&names(&["DJI"]), None, mute, some_apps),
        Err("Could not determine stream config for device".to_string())
    );
}

#[test]
fn missing_sources_are_reported() {
    assert_eq!(
        open_audio_source(&names(&["x"]), Some("y"), stereo, no_apps),
        Err("No audio device or application matching 'y' found".to_string())
    );
    assert_eq!(
        open_audio_source(&names(&["Music box"]), Some("music"), mute, some_apps),
        Err("Could not determine stream config for device".to_string())
    );
}

#[test]
fn a_device_without_a_name_is_unknown() {
    let config = StreamConfig { channels: 1, sample_rate: 8000 };
    let source = AudioSource::Hardware { index: 0, name: None, config };
    assert_eq!(source.name(), "Unknown");
    assert!(!source.is_dji());
}

#[test]
fn connection_checks() {
    assert!(is_dji_device_connected(&names(&["a", "DJI b"])));
    assert!(!is_dji_device_connected(&names(&["a"])));
    assert!(is_device_connected(&names(&["DJI"]), None, no_apps));
    assert!(!is_device_connected(&names(&["a"]), None, some_apps));
    assert!(is_device_connected(&names(&["Abc"]), Some("aB"), no_apps));
    assert!(is_device_connected(&names(&["x"]), Some("zoo"), some_apps));
    assert!(!is_device_connected(&names(&["x"]), Some("zoo"), no_apps));
}

#[test]
fn a_connected_dji_device_is_found_in_every_way() {
    let none = || Vec::new();
    for names in [
        vec![Some("x".to_string()), Some("DJI MIC".to_string())],
        vec![Some("ΌΣDJI İΣ".to_string())],
        vec![Some("édji".to_string())],
        vec![None],
    ] {
        let connected = is_dji_device_connected(&names);
        assert_eq!(is_device_connected(&names, None, none), connected);
        assert_eq!(find_audio_device(&names, None).is_some(), connected);
        assert_eq!(is_device_connected(&names, Some("dji"), none), connected);
    }
}
