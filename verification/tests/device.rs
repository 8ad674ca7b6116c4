use plexus_listen::device::{
    describe_usb_device, find_app_source, find_audio_device, find_dji_audio_device,
    find_dji_usb_device, is_dji_device_name, list_audio_input_devices, name_matches,
    preferred_stream_config, DeviceProbe, StreamConfig, SupportedConfig, UsbDescriptor, UsbStrings,
};
use plexus_listen::sck::AppSource;
use plexus_listen::types::DeviceKind;

fn usb(vendor_id: u16, product_id: u16) -> Option<UsbDescriptor> {
    Some(UsbDescriptor { vendor_id, product_id })
}

fn names(list: &[&str]) -> Vec<Option<String>> {
    list.iter().map(|n| if n.is_empty() { None } else { Some(n.to_string()) }).collect()
}

fn app(name: &str, pid: i32) -> AppSource {
    AppSource { name: name.to_string(), bundle_id: String::from("id"), pid }
}

#[test]
fn the_vendor_is_recognised_first() {
    let picked =
        find_dji_usb_device(&vec![usb(1, 0x0042), None, usb(0x2CA3, 7), usb(0x2CA3, 8)]).unwrap();
    assert_eq!((picked.index, picked.by_vendor), (2, true));
    let info = describe_usb_device(picked, None);
    assert_eq!(info.name, "DJI Device 2ca3:0007");
    assert_eq!((info.vendor_id, info.product_id), (0x2CA3, 7));
    assert_eq!((info.serial, info.manufacturer), (None, None));
}

#[test]
fn the_product_is_the_fallback() {
    let picked = find_dji_usb_device(&vec![None, usb(1, 2), usb(3, 0x42)]).unwrap();
    assert_eq!((picked.index, picked.by_vendor), (2, false));
    let strings = UsbStrings {
        product: None,
        serial: Some("s".to_string()),
        manufacturer: Some("m".to_string()),
    };
    let info = describe_usb_device(picked, Some(strings));
    assert_eq!(info.name, "DJI MIC MINI");
    assert_eq!((info.serial, info.manufacturer), (None, None));
    assert_eq!(find_dji_usb_device(&vec![None, usb(1, 2)]), None);
    assert_eq!(find_dji_usb_device(&Vec::new()), None);
}

#[test]
fn a_device_that_opens_names_itself() {
    let picked = find_dji_usb_device(&vec![usb(0x2CA3, 0x42)]).unwrap();
    let strings = UsbStrings {
        product: Some("Wireless Mic".to_string()),
        serial: Some("123".to_string()),
        manufacturer: None,
    };
    let info = describe_usb_device(picked, Some(strings));
    assert_eq!(info.name, "Wireless Mic");
    assert_eq!(info.serial, Some("123".to_string()));
    assert_eq!(info.manufacturer, None);
    let silent = UsbStrings { product: None, serial: None, manufacturer: Some("DJI".to_string()) };
    let info = describe_usb_device(picked, Some(silent));
    assert_eq!(info.name, "DJI Device 2ca3:0042");
    assert_eq!(info.manufacturer, Some("DJI".to_string()));
}

#[test]
fn dji_names_are_upper_or_lower_case() {
    assert!(is_dji_device_name("DJI MIC MINI"));
    assert!(is_dji_device_name("usb dji mic"));
    assert!(!is_dji_device_name("Dji"));
    assert!(!is_dji_device_name("Built-in"));
}

#[test]
fn names_match_without_regard_to_case() {
    assert!(name_matches("MacBook Pro MICROPHONE", "pro mic"));
    assert!(name_matches("ÄÖÜ Gerät", "äöü"));
    assert!(name_matches("x", ""));
    assert!(!name_matches("Mic", "Mike"));
}

#[test]
fn the_first_matching_device_is_found() {
    let list = names(&["", "Scarlett 2i2", "DJI MIC", "dji two"]);
    assert_eq!(find_audio_device(&list, None), Some(2));
    assert_eq!(find_dji_audio_device(&list), Some(2));
    assert_eq!(find_audio_device(&list, Some("SCAR")), Some(1));
    assert_eq!(find_audio_device(&list, Some("dji")), Some(2));
    assert_eq!(find_audio_device(&list, Some("")), Some(1));
    assert_eq!(find_audio_device(&list, Some("none")), None);
    assert_eq!(find_audio_device(&names(&["", "Scarlett"]), None), None);
}

#[test]
fn listing_marks_dji_and_appends_applications() {
    let probes = vec![
        DeviceProbe {
            name: Some("DJI MIC".to_string()),
            config: Some(StreamConfig { channels: 2, sample_rate: 44100 }),
        },
        DeviceProbe { name: None, config: None },
    ];
    let devices = list_audio_input_devices(Some(probes), vec![app("zoom", 5), app("", 6), app("DJI Mimo", 7)]);
    assert_eq!(devices.len(), 4);
    assert_eq!(devices[0].name, "DJI MIC");
    assert_eq!((devices[0].channels, devices[0].sample_rate), (2, 44100));
    assert!(devices[0].is_dji && devices[0].kind == DeviceKind::Hardware);
    assert_eq!(devices[1].name, "Unknown");
    assert_eq!((devices[1].channels, devices[1].sample_rate, devices[1].is_dji), (0, 0, false));
    assert_eq!(devices[2].name, "DJI Mimo");
    assert_eq!((devices[2].channels, devices[2].sample_rate), (2, 48000));
    assert!(!devices[2].is_dji && devices[2].kind == DeviceKind::Application);
    assert_eq!(devices[3].name, "zoom");
    assert!(list_audio_input_devices(None, vec![app("zoom", 5)]).is_empty());
}

#[test]
fn the_preferred_stream_wins() {
    let config = |channels, min_rate, max_rate| SupportedConfig { channels, min_rate, max_rate };
    let default = Some(StreamConfig { channels: 1, sample_rate: 16000 });
    let preferred = Some(StreamConfig { channels: 2, sample_rate: 48000 });
    let all = vec![config(1, 8000, 96000), config(2, 48000, 48000)];
    assert_eq!(preferred_stream_config(Some(all), default), preferred);
    let none = vec![config(2, 8000, 44100), config(4, 8000, 96000), config(2, 48001, 96000)];
    assert_eq!(preferred_stream_config(Some(none.clone()), default), default);
    assert_eq!(preferred_stream_config(Some(none), None), None);
    assert_eq!(preferred_stream_config(None, default), None);
}

#[test]
fn applications_are_found_by_name() {
    let apps = || vec![app("Zoom", 3), app("Apple Music", 4), app("amazon MUSIC", 5)];
    assert_eq!(find_app_source(apps(), "music").unwrap().pid, 5);
    assert_eq!(find_app_source(apps(), "APPLE").unwrap().name, "Apple Music");
    assert_eq!(find_app_source(apps(), "spotify"), None);
}

#[test]
fn ascii_parts_of_any_name_are_found_in_any_case() {
    for name in ["ΑΣMiC", "İMICΣ", "ẞ mic ß", "Mic"] {
        assert!(name_matches(name, "mIc"), "{}", name);
        assert!(!name_matches(name, "mac"), "{}", name);
        assert!(name_matches(name, ""), "{}", name);
    }
}
