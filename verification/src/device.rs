//! USB device discovery and audio device matching.

use vstd::prelude::*;
use vstd::string::StringExecFns;

use crate::sck::{list_capturable_apps, AppSource};
use crate::text::{append_hex4, contains, to_lowercase};
use crate::types::{AudioDevice, DeviceKind};

verus! {

/// USB vendor ID of DJI.
pub const DJI_VENDOR_ID: u16 = 0x2CA3;

/// USB product ID of the DJI MIC MINI.
pub const DJI_MIC_MINI_PRODUCT_ID: u16 = 0x0042;

/// The sample rate that capture prefers, in Hz.
pub const PREFERRED_RATE: u32 = 48000;

/// The number of channels that capture prefers.
pub const PREFERRED_CHANNELS: u16 = 2;

/// USB device information.
#[derive(Debug, Clone, PartialEq, Eq)]
pub struct UsbDeviceInfo {
    pub vendor_id: u16,
    pub product_id: u16,
    pub name: String,
    pub serial: Option<String>,
    pub manufacturer: Option<String>,
}

/// What identifies a USB device.
#[derive(Debug, Clone, Copy, PartialEq, Eq, Structural)]
pub struct UsbDescriptor {
    pub vendor_id: u16,
    pub product_id: u16,
}

/// A USB device that was picked out of a list.
#[derive(Debug, Clone, Copy, PartialEq, Eq, Structural)]
pub struct UsbMatch {
    /// The place of the device in the list.
    pub index: usize,
    pub descriptor: UsbDescriptor,
    /// Whether the vendor was recognised, and not only the product.
    pub by_vendor: bool,
}

/// What a USB device that could be opened said of itself.
#[derive(Debug, Clone, PartialEq, Eq)]
pub struct UsbStrings {
    pub product: Option<String>,
    pub serial: Option<String>,
    pub manufacturer: Option<String>,
}

/// The channel count and sample rate of a stream.
#[derive(Debug, Clone, Copy, PartialEq, Eq, Structural)]
pub struct StreamConfig {
    pub channels: u16,
    pub sample_rate: u32,
}

/// A channel count with the range of sample rates that a device supports for it.
#[derive(Debug, Clone, Copy, PartialEq, Eq, Structural)]
pub struct SupportedConfig {
    pub channels: u16,
    pub min_rate: u32,
    pub max_rate: u32,
}

/// What the audio subsystem says of an input device: its name and its default stream, where
/// it gives them.
#[derive(Debug, Clone, PartialEq, Eq)]
pub struct DeviceProbe {
    pub name: Option<String>,
    pub config: Option<StreamConfig>,
}

/// The descriptor could be read and is from DJI.
pub open spec fn is_vendor_match(entry: Option<UsbDescriptor>) -> bool {
    entry is Some && entry->0.vendor_id == DJI_VENDOR_ID
}

/// The descriptor could be read and is that of a DJI MIC MINI by its product ID.
pub open spec fn is_product_match(entry: Option<UsbDescriptor>) -> bool {
    entry is Some && entry->0.product_id == DJI_MIC_MINI_PRODUCT_ID
}

/// `at` is the place of the first DJI device.
pub open spec fn is_first_vendor(entries: Seq<Option<UsbDescriptor>>, at: int) -> bool {
    &&& 0 <= at < entries.len()
    &&& is_vendor_match(entries[at])
    &&& forall|j: int| 0 <= j < at ==> !is_vendor_match(#[trigger] entries[j])
}

/// `at` is the place of the first device with the product ID of the DJI MIC MINI.
pub open spec fn is_first_product(entries: Seq<Option<UsbDescriptor>>, at: int) -> bool {
    &&& 0 <= at < entries.len()
    &&& is_product_match(entries[at])
    &&& forall|j: int| 0 <= j < at ==> !is_product_match(#[trigger] entries[j])
}

/// No device is from DJI.
pub open spec fn no_vendor(entries: Seq<Option<UsbDescriptor>>) -> bool {
    forall|j: int| 0 <= j < entries.len() ==> !is_vendor_match(#[trigger] entries[j])
}

/// No device has the product ID of the DJI MIC MINI.
pub open spec fn no_product(entries: Seq<Option<UsbDescriptor>>) -> bool {
    forall|j: int| 0 <= j < entries.len() ==> !is_product_match(#[trigger] entries[j])
}

/// The name of a DJI device that does not give one.
pub open spec fn fallback_name(descriptor: UsbDescriptor) -> Seq<char> {
    "DJI Device "@ + crate::text::hex4(descriptor.vendor_id) + ":"@ + crate::text::hex4(
        descriptor.product_id,
    )
}

/// The name under which a picked device is shown.
pub open spec fn usb_name(picked: UsbMatch, strings: Option<UsbStrings>) -> Seq<char> {
    if strings is Some && strings->0.product is Some {
        strings->0.product->0@
    } else if picked.by_vendor {
        fallback_name(picked.descriptor)
    } else {
        "DJI MIC MINI"@
    }
}

/// The name is that of a DJI microphone.
pub open spec fn is_dji_name(name: Seq<char>) -> bool {
    crate::text::contains_text(name, "DJI"@) || crate::text::contains_text(name, "dji"@)
}

/// The name holds the query, without regard to case.
pub open spec fn name_holds(name: Seq<char>, query: Seq<char>) -> bool {
    crate::text::contains_text(crate::text::folded(name), crate::text::folded(query))
}

/// A device of this name is meant by the query; without a query a DJI device is.
pub open spec fn is_wanted(name: Option<String>, query: Option<Seq<char>>) -> bool {
    match (name, query) {
        (None, _) => false,
        (Some(n), Some(q)) => name_holds(n@, q),
        (Some(n), None) => is_dji_name(n@),
    }
}

/// `found` is the place of the first device that the query means, if it means one.
pub open spec fn is_first_wanted(
    names: Seq<Option<String>>,
    query: Option<Seq<char>>,
    found: Option<usize>,
) -> bool {
    match found {
        Some(i) => i < names.len() && is_wanted(names[i as int], query) && forall|j: int|
            0 <= j < i ==> !is_wanted(#[trigger] names[j], query),
        None => forall|j: int| 0 <= j < names.len() ==> !is_wanted(#[trigger] names[j], query),
    }
}

/// The name of a device, `Unknown` if it gives none.
pub open spec fn shown_name(name: Option<String>) -> Seq<char> {
    match name {
        Some(n) => n@,
        None => "Unknown"@,
    }
}

/// A hardware device as it is listed; without a default stream it shows no channels.
pub open spec fn listed_hardware(probe: DeviceProbe) -> crate::types::AudioDeviceView {
    crate::types::AudioDeviceView {
        name: shown_name(probe.name),
        channels: match probe.config {
            Some(config) => config.channels,
            None => 0,
        },
        sample_rate: match probe.config {
            Some(config) => config.sample_rate,
            None => 0,
        },
        is_dji: is_dji_name(shown_name(probe.name)),
        kind: DeviceKind::Hardware,
    }
}

/// An application as it is listed.
pub open spec fn listed_app(app: AppSource) -> crate::types::AudioDeviceView {
    crate::types::AudioDeviceView {
        name: app.name@,
        channels: PREFERRED_CHANNELS,
        sample_rate: PREFERRED_RATE,
        is_dji: false,
        kind: DeviceKind::Application,
    }
}

/// All inputs as they are listed: the hardware in its own order, then the applications;
/// nothing where the hardware cannot be enumerated.
pub open spec fn listed_inputs(
    probes: Option<Seq<DeviceProbe>>,
    apps: Seq<AppSource>,
) -> Seq<crate::types::AudioDeviceView> {
    match probes {
        None => Seq::empty(),
        Some(hardware) => hardware.map_values(|probe: DeviceProbe| listed_hardware(probe))
            + crate::sck::capturable(apps).map_values(|app: AppSource| listed_app(app)),
    }
}

/// An optional list of devices by its contents.
pub open spec fn optional_probes(probes: Option<Vec<DeviceProbe>>) -> Option<Seq<DeviceProbe>> {
    match probes {
        Some(list) => Some(list@),
        None => None,
    }
}

/// The device can give the preferred stream.
pub open spec fn supports_preferred(supported: Seq<SupportedConfig>) -> bool {
    exists|i: int|
        0 <= i < supported.len() && (#[trigger] supported[i]).channels == PREFERRED_CHANNELS
            && supported[i].min_rate <= PREFERRED_RATE <= supported[i].max_rate
}

/// The stream to capture from a device: the preferred one if it is supported, else the
/// default; none where the device does not say what it supports.
pub open spec fn chosen_config(
    supported: Option<Seq<SupportedConfig>>,
    default: Option<StreamConfig>,
) -> Option<StreamConfig> {
    match supported {
        None => None,
        Some(configs) => if supports_preferred(configs) {
            Some(StreamConfig { channels: PREFERRED_CHANNELS, sample_rate: PREFERRED_RATE })
        } else {
            default
        },
    }
}

/// An optional list by its contents.
pub open spec fn optional_configs(supported: Option<Vec<SupportedConfig>>) -> Option<
    Seq<SupportedConfig>,
> {
    match supported {
        Some(configs) => Some(configs@),
        None => None,
    }
}

/// Picks the DJI device out of the USB devices, of which each is given by its descriptor
/// where that could be read: the first one from DJI, else the first with the product ID of
/// the DJI MIC MINI.
pub fn find_dji_usb_device(entries: &Vec<Option<UsbDescriptor>>) -> (picked: Option<UsbMatch>)
    ensures
        match picked {
            Some(m) => {
                &&& m.index < entries@.len()
                &&& entries@[m.index as int] == Some(m.descriptor)
                &&& if m.by_vendor {
                    is_first_vendor(entries@, m.index as int)
                } else {
                    no_vendor(entries@) && is_first_product(entries@, m.index as int)
                }
            },
            None => no_vendor(entries@) && no_product(entries@),
        },
{
    let mut i: usize = 0;
    while i < entries.len()
        invariant
            i <= entries@.len(),
            forall|j: int| 0 <= j < i ==> !is_vendor_match(#[trigger] entries@[j]),
        decreases entries@.len() - i,
    {
        if let Some(descriptor) = entries[i] {
            if descriptor.vendor_id == DJI_VENDOR_ID {
                return Some(UsbMatch { index: i, descriptor, by_vendor: true });
            }
        }
        i += 1;
    }
    let mut k: usize = 0;
    while k < entries.len()
        invariant
            k <= entries@.len(),
            no_vendor(entries@),
            forall|j: int| 0 <= j < k ==> !is_product_match(#[trigger] entries@[j]),
        decreases entries@.len() - k,
    {
        if let Some(descriptor) = entries[k] {
            if descriptor.product_id == DJI_MIC_MINI_PRODUCT_ID {
                return Some(UsbMatch { index: k, descriptor, by_vendor: false });
            }
        }
        k += 1;
    }
    None
}

/// The name of a DJI device that does not give one.
pub fn fallback_usb_name(descriptor: UsbDescriptor) -> (name: String)
    ensures
        name@ == fallback_name(descriptor),
{
    let mut name = String::new();
    name.append("DJI Device ");
    append_hex4(&mut name, descriptor.vendor_id);
    name.append(":");
    append_hex4(&mut name, descriptor.product_id);
    assert(name@ =~= fallback_name(descriptor));
    name
}

/// Describes a picked device. `strings` is what it said of itself, if it could be opened; of
/// a device that was picked by its product alone only the name is shown.
pub fn describe_usb_device(picked: UsbMatch, strings: Option<UsbStrings>) -> (info: UsbDeviceInfo)
    ensures
        info.vendor_id == picked.descriptor.vendor_id,
        info.product_id == picked.descriptor.product_id,
        info.name@ == usb_name(picked, strings),
        info.serial == (if picked.by_vendor && strings is Some {
            strings->0.serial
        } else {
            None
        }),
        info.manufacturer == (if picked.by_vendor && strings is Some {
            strings->0.manufacturer
        } else {
            None
        }),
{
    let vendor_id: u16 = picked.descriptor.vendor_id;
    let product_id: u16 = picked.descriptor.product_id;
    let (product, serial, manufacturer) = match strings {
        Some(s) => (s.product, s.serial, s.manufacturer),
        None => (None, None, None),
    };
    let name = match product {
        Some(given) => given,
        None => {
            if picked.by_vendor {
                fallback_usb_name(picked.descriptor)
            } else {
                "DJI MIC MINI".to_owned()
            }
        },
    };
    if picked.by_vendor {
        UsbDeviceInfo { vendor_id, product_id, name, serial, manufacturer }
    } else {
        UsbDeviceInfo { vendor_id, product_id, name, serial: None, manufacturer: None }
    }
}

/// Whether a device name looks like a DJI microphone.
pub fn is_dji_device_name(name: &str) -> (dji: bool)
    ensures
        dji == is_dji_name(name@),
{
    contains(name, "DJI") || contains(name, "dji")
}

/// Whether a name holds the query, without regard to case.
pub fn name_matches(name: &str, query: &str) -> (matched: bool)
    ensures
        matched == name_holds(name@, query@),
{
    let name_lower = to_lowercase(name);
    let query_lower = to_lowercase(query);
    contains(name_lower.as_str(), query_lower.as_str())
}

/// Finds an input device by a part of its name, or a DJI device if no name is given. Each
/// device is given by its name, where the audio subsystem gives one.
pub fn find_audio_device(names: &Vec<Option<String>>, name: Option<&str>) -> (found: Option<usize>)
    ensures
        is_first_wanted(names@, crate::types::optional_text(name), found),
{
    let ghost query = crate::types::optional_text(name);
    let mut i: usize = 0;
    while i < names.len()
        invariant
            i <= names@.len(),
            query == crate::types::optional_text(name),
            forall|j: int| 0 <= j < i ==> !is_wanted(#[trigger] names@[j], query),
        decreases names@.len() - i,
    {
        if let Some(device_name) = &names[i] {
            let wanted = match name {
                Some(part) => name_matches(device_name.as_str(), part),
                None => is_dji_device_name(device_name.as_str()),
            };
            if wanted {
                return Some(i);
            }
        }
        i += 1;
    }
    None
}

/// Finds the DJI microphone among the input devices.
pub fn find_dji_audio_device(names: &Vec<Option<String>>) -> (found: Option<usize>)
    ensures
        is_first_wanted(names@, None, found),
{
    find_audio_device(names, None)
}

/// Lists all inputs, marking which ones are DJI. `probes` are the hardware devices, if they
/// can be enumerated, and `apps` the running applications.
pub fn list_audio_input_devices(
    probes: Option<Vec<DeviceProbe>>,
    apps: Vec<AppSource>,
) -> (devices: Vec<AudioDevice>)
    ensures
        crate::types::device_views(devices@) == listed_inputs(optional_probes(probes), apps@),
{
    let mut devices: Vec<AudioDevice> = Vec::new();
    let hardware = match probes {
        Some(hardware) => hardware,
        None => {
            assert(crate::types::device_views(devices@) =~= listed_inputs(None, apps@));
            return devices;
        },
    };
    let ghost all = hardware@;
    let ghost offer = crate::sck::capturable(apps@);
    for probe in it: hardware
        invariant
            it.seq() == all,
            devices@.len() == it.index(),
            forall|j: int|
                0 <= j < devices@.len() ==> (#[trigger] devices@[j])@ == listed_hardware(all[j]),
    {
        let (channels, sample_rate): (u16, u32) = match probe.config {
            Some(config) => (config.channels, config.sample_rate),
            None => (0, 0),
        };
        let name = match probe.name {
            Some(given) => given,
            None => "Unknown".to_owned(),
        };
        let is_dji = is_dji_device_name(name.as_str());
        devices.push(
            AudioDevice { name, channels, sample_rate, is_dji, kind: DeviceKind::Hardware },
        );
    }
    let listed = list_capturable_apps(apps);
    for app in it: listed
        invariant
            it.seq() == offer,
            devices@.len() == all.len() + it.index(),
            forall|j: int|
                0 <= j < all.len() ==> (#[trigger] devices@[j])@ == listed_hardware(all[j]),
            forall|j: int|
                all.len() <= j < devices@.len() ==> (#[trigger] devices@[j])@ == listed_app(
                    offer[j - all.len()],
                ),
    {
        devices.push(
            AudioDevice {
                name: app.name,
                channels: PREFERRED_CHANNELS,
                sample_rate: PREFERRED_RATE,
                is_dji: false,
                kind: DeviceKind::Application,
            },
        );
    }
    assert(crate::types::device_views(devices@) =~= listed_inputs(Some(all), apps@));
    devices
}

/// The preferred stream of a capture device: 48 kHz with two channels if it supports that,
/// else its default.
pub fn preferred_stream_config(
    supported: Option<Vec<SupportedConfig>>,
    default: Option<StreamConfig>,
) -> (config: Option<StreamConfig>)
    ensures
        config == chosen_config(optional_configs(supported), default),
{
    let configs = match supported {
        Some(configs) => configs,
        None => {
            return None;
        },
    };
    let mut i: usize = 0;
    while i < configs.len()
        invariant
            i <= configs@.len(),
            optional_configs(supported) == Some(configs@),
            forall|j: int|
                0 <= j < i ==> !((#[trigger] configs@[j]).channels == PREFERRED_CHANNELS
                    && configs@[j].min_rate <= PREFERRED_RATE <= configs@[j].max_rate),
        decreases configs@.len() - i,
    {
        let config = configs[i];
        if config.channels == PREFERRED_CHANNELS && config.min_rate <= PREFERRED_RATE
            && config.max_rate >= PREFERRED_RATE {
            return Some(
                StreamConfig { channels: PREFERRED_CHANNELS, sample_rate: PREFERRED_RATE },
            );
        }
        i += 1;
    }
    default
}

/// Finds a capturable application by a part of its name, without regard to case, among the
/// running ones.
pub fn find_app_source(apps: Vec<AppSource>, query: &str) -> (found: Option<AppSource>)
    ensures
        crate::sck::is_first_app(crate::sck::capturable(apps@), query@, found),
{
    let mut offer = list_capturable_apps(apps);
    let query_lower = to_lowercase(query);
    let mut i: usize = 0;
    while i < offer.len()
        invariant
            i <= offer@.len(),
            offer@ == crate::sck::capturable(apps@),
            query_lower@ == crate::text::folded(query@),
            forall|j: int| 0 <= j < i ==> !crate::sck::app_matches(#[trigger] offer@[j], query@),
        decreases offer@.len() - i,
    {
        let name_lower = to_lowercase(offer[i].name.as_str());
        if contains(name_lower.as_str(), query_lower.as_str()) {
            let app = offer.swap_remove(i);
            assert(crate::sck::capturable(apps@)[i as int] == app);
            return Some(app);
        }
        i += 1;
    }
    None
}

/// There is exactly one answer to which device a query means: the first one, if any is meant.
pub proof fn law_one_device_is_meant(
    names: Seq<Option<String>>,
    query: Option<Seq<char>>,
    a: Option<usize>,
    b: Option<usize>,
)
    requires
        is_first_wanted(names, query, a),
        is_first_wanted(names, query, b),
    ensures
        a == b,
        a is Some <==> exists|j: int| 0 <= j < names.len() && is_wanted(#[trigger] names[j], query),
{
    if let Some(i) = a {
        assert(is_wanted(names[i as int], query));
    }
    if let Some(i) = b {
        assert(is_wanted(names[i as int], query));
    }
}

/// A query means the same devices in whatever case its ASCII letters are written, as does
/// every query with the same lower-case form.
pub proof fn law_query_ignores_case(name: Seq<char>, a: Seq<char>, b: Seq<char>)
    requires
        crate::text::folded(a) == crate::text::folded(b),
    ensures
        name_holds(name, a) == name_holds(name, b),
        crate::text::is_ascii_text(a) ==> name_holds(name, a) == name_holds(
            name,
            crate::text::ascii_lowercase(a),
        ),
{
    if crate::text::is_ascii_text(a) {
        let low = crate::text::ascii_lowercase(a);
        crate::text::law_ascii_text_is_lowered(a);
        crate::text::law_ascii_text_is_lowered(low);
        assert(crate::text::ascii_lowercase(low) =~= low);
    }
}

/// The empty query means every device that has a name.
pub proof fn law_empty_query_matches(name: Seq<char>)
    ensures
        name_holds(name, Seq::empty()),
{
    let lower = crate::text::folded(name);
    let part = crate::text::folded(Seq::empty());
    assert(part =~= Seq::<char>::empty());
    assert(lower.subrange(0, 0) =~= part);
    assert(crate::text::occurs_at(lower, part, 0));
}

/// A part of a device's name in ASCII characters means the device, in whatever case.
pub proof fn law_ascii_part_means_device(name: Seq<char>, part: Seq<char>, query: Seq<char>)
    requires
        crate::text::contains_text(name, part),
        crate::text::is_ascii_text(part),
        crate::text::is_ascii_text(query),
        crate::text::ascii_lowercase(part) == crate::text::ascii_lowercase(query),
    ensures
        name_holds(name, query),
{
    crate::text::law_ascii_part_is_lowered(name, part);
    crate::text::law_ascii_text_is_lowered(query);
}

/// A DJI device is also meant by the query `dji`.
pub proof fn law_dji_query_means_dji(name: Seq<char>)
    requires
        is_dji_name(name),
    ensures
        name_holds(name, "dji"@),
{
    reveal_strlit("DJI");
    reveal_strlit("dji");
    let part = if crate::text::contains_text(name, "DJI"@) {
        "DJI"@
    } else {
        "dji"@
    };
    assert(crate::text::ascii_lowercase(part) =~= crate::text::ascii_lowercase("dji"@));
    law_ascii_part_means_device(name, part, "dji"@);
}

/// Where the device supports 48 kHz with two channels, that is the stream that is captured.
pub proof fn law_preferred_stream_wins(
    supported: Seq<SupportedConfig>,
    default: Option<StreamConfig>,
    i: int,
)
    requires
        0 <= i < supported.len(),
        supported[i].channels == PREFERRED_CHANNELS,
        supported[i].min_rate <= PREFERRED_RATE <= supported[i].max_rate,
    ensures
        chosen_config(Some(supported), default) == Some(
            StreamConfig { channels: PREFERRED_CHANNELS, sample_rate: PREFERRED_RATE },
        ),
{
    assert(supports_preferred(supported));
}

/// The first DJI device is the first whose descriptor could be read and has vendor 2CA3; a
/// device is one by its product where the product is 0042.
pub proof fn law_first_usb_device(entries: Seq<Option<UsbDescriptor>>, at: int)
    ensures
        is_first_vendor(entries, at) <==> 0 <= at < entries.len() && entries[at] is Some
            && entries[at]->0.vendor_id == 0x2CA3 && forall|j: int|
            0 <= j < at && #[trigger] entries[j] is Some ==> entries[j]->0.vendor_id != 0x2CA3,
        is_first_product(entries, at) <==> 0 <= at < entries.len() && entries[at] is Some
            && entries[at]->0.product_id == 0x0042 && forall|j: int|
            0 <= j < at && #[trigger] entries[j] is Some ==> entries[j]->0.product_id != 0x0042,
        no_vendor(entries) <==> forall|j: int|
            0 <= j < entries.len() && #[trigger] entries[j] is Some ==> entries[j]->0.vendor_id
                != 0x2CA3,
        no_product(entries) <==> forall|j: int|
            0 <= j < entries.len() && #[trigger] entries[j] is Some ==> entries[j]->0.product_id
                != 0x0042,
{
    assert(no_vendor(entries) ==> forall|j: int|
        0 <= j < entries.len() && #[trigger] entries[j] is Some ==> !is_vendor_match(entries[j]));
    assert(no_product(entries) ==> forall|j: int|
        0 <= j < entries.len() && #[trigger] entries[j] is Some ==> !is_product_match(entries[j]));
}

/// A device is shown by the name it gives. Without one, a device of the vendor is shown by its
/// vendor and product in hexadecimal, and another by the name of the microphone.
pub proof fn law_usb_device_is_named(picked: UsbMatch, strings: Option<UsbStrings>)
    ensures
        match strings {
            Some(UsbStrings { product: Some(product), .. }) => usb_name(picked, strings) == product@,
            _ => if picked.by_vendor {
                usb_name(picked, strings) == "DJI Device "@ + crate::text::hex4(
                    picked.descriptor.vendor_id,
                ) + seq![':'] + crate::text::hex4(picked.descriptor.product_id)
            } else {
                usb_name(picked, strings) == "DJI MIC MINI"@
            },
        },
{
    reveal_strlit(":");
    assert(":"@ =~= seq![':']);
}

/// A name is that of a DJI microphone if it holds the three letters, all upper or all lower
/// case.
pub proof fn law_dji_names(name: Seq<char>)
    ensures
        is_dji_name(name) <==> crate::text::contains_text(name, seq!['D', 'J', 'I'])
            || crate::text::contains_text(name, seq!['d', 'j', 'i']),
{
    reveal_strlit("DJI");
    reveal_strlit("dji");
    assert("DJI"@ =~= seq!['D', 'J', 'I']);
    assert("dji"@ =~= seq!['d', 'j', 'i']);
}

/// A name holds a query if the query stands in the name, both in lower case.
pub proof fn law_name_holds_query(name: Seq<char>, query: Seq<char>)
    ensures
        name_holds(name, query) <==> exists|a: Seq<char>, b: Seq<char>|
            crate::text::folded(name) == #[trigger] (a + crate::text::folded(query) + b),
{
    crate::text::law_contains_means_between(
        crate::text::folded(name),
        crate::text::folded(query),
    );
}

/// The device that is found has a name that holds the query, or a DJI name where there is no
/// query, and no device before it has; where none is found none has.
pub proof fn law_first_device_is_found(
    names: Seq<Option<String>>,
    query: Option<Seq<char>>,
    found: Option<usize>,
    j: int,
)
    requires
        is_first_wanted(names, query, found),
        0 <= j < names.len(),
    ensures
        found is Some ==> found->0 < names.len(),
        ({
            let meant = names[j] is Some && match query {
                Some(part) => name_holds(names[j]->0@, part),
                None => is_dji_name(names[j]->0@),
            };
            &&& found is Some && j == found->0 ==> meant
            &&& found is Some && j < found->0 ==> !meant
            &&& found is None ==> !meant
        }),
{
    assert(names[j] == names[j]);
}

/// The list of inputs shows every device under its name with its default stream, in the order
/// of the devices, and behind them the applications that can be captured, in stereo at 48 kHz;
/// it is empty where the devices cannot be enumerated.
pub proof fn law_inputs_are_listed(
    probes: Option<Seq<DeviceProbe>>,
    apps: Seq<AppSource>,
    i: int,
)
    ensures
        probes is None ==> listed_inputs(probes, apps).len() == 0,
        probes is Some ==> {
            let list = listed_inputs(probes, apps);
            let count = probes->0.len();
            let offer = crate::sck::capturable(apps);
            &&& list.len() == count + offer.len()
            &&& 0 <= i < count ==> {
                let probe = probes->0[i];
                &&& list[i].name == (if probe.name is Some {
                    probe.name->0@
                } else {
                    "Unknown"@
                })
                &&& probe.config is Some ==> list[i].channels == probe.config->0.channels
                    && list[i].sample_rate == probe.config->0.sample_rate
                &&& probe.config is None ==> list[i].channels == 0 && list[i].sample_rate == 0
                &&& list[i].is_dji == is_dji_name(list[i].name)
                &&& list[i].kind == DeviceKind::Hardware
            }
            &&& 0 <= i < offer.len() ==> list[count + i] == (crate::types::AudioDeviceView {
                name: offer[i].name@,
                channels: 2,
                sample_rate: 48000,
                is_dji: false,
                kind: DeviceKind::Application,
            })
        },
{
}

/// The stream to capture is 48 kHz stereo where some supported entry has two channels and a
/// range of rates with 48 kHz in it, and the default where no entry has; none where the device
/// does not say what it supports.
pub proof fn law_stream_to_capture(
    supported: Option<Seq<SupportedConfig>>,
    default: Option<StreamConfig>,
)
    ensures
        supported is None ==> chosen_config(supported, default) is None,
        supported is Some ==> ((exists|i: int|
            0 <= i < supported->0.len() && (#[trigger] supported->0[i]).channels == 2
                && supported->0[i].min_rate <= 48000 && supported->0[i].max_rate >= 48000)
            ==> chosen_config(supported, default) == Some(
            StreamConfig { channels: 2, sample_rate: 48000 },
        )),
        supported is Some ==> ((forall|i: int|
            0 <= i < supported->0.len() ==> (#[trigger] supported->0[i]).channels != 2
                || supported->0[i].min_rate > 48000 || supported->0[i].max_rate < 48000)
            ==> chosen_config(supported, default) == default),
{
}

/// A list that a device or the system gives is taken as it is, also where it is empty.
pub proof fn law_lists_are_taken_as_given(configs: Vec<SupportedConfig>, probes: Vec<DeviceProbe>)
    ensures
        optional_configs(Some(configs)) == Some(configs@),
        optional_configs(None) is None,
        optional_probes(Some(probes)) == Some(probes@),
        optional_probes(None) is None,
{
}

} // verus!
