//! Audio sources: hardware devices and applications.

use vstd::prelude::*;
use vstd::string::StringExecFns;

use crate::device::{
    find_app_source, find_audio_device, find_dji_audio_device, is_dji_device_name,
    preferred_stream_config, StreamConfig, SupportedConfig, PREFERRED_CHANNELS, PREFERRED_RATE,
};
use crate::sck::AppSource;

verus! {

/// A source of audio: a hardware device, at a place in the device list, or an application.
#[derive(Debug, Clone, PartialEq, Eq)]
pub enum AudioSource {
    Hardware { index: usize, name: Option<String>, config: StreamConfig },
    App(AppSource),
}

/// What a device says of the streams it can give: those it supports, if it says so, and its
/// default.
#[derive(Debug, Clone, PartialEq, Eq)]
pub struct ConfigAnswer {
    pub supported: Option<Vec<SupportedConfig>>,
    pub default: Option<StreamConfig>,
}

/// `query`, asked about the device at place `index`, can lead to `config`.
pub open spec fn config_of<Q: Fn(usize) -> ConfigAnswer>(
    query: Q,
    index: usize,
    config: Option<StreamConfig>,
) -> bool {
    exists|answer: ConfigAnswer| #[trigger]
        query.ensures((index,), answer) && config == crate::device::chosen_config(
            crate::device::optional_configs(answer.supported),
            answer.default,
        )
}

/// `query` can be asked about every device of the list.
pub open spec fn answers_all<Q: Fn(usize) -> ConfigAnswer>(query: Q, len: nat) -> bool {
    forall|i: usize| i < len ==> #[trigger] query.requires((i,))
}

/// The answer where no input device was found.
pub open spec fn no_input_message(device_name: Option<Seq<char>>) -> Seq<char> {
    match device_name {
        Some(name) => "Audio input device matching '"@ + name + "' not found"@,
        None => "No audio input device found"@,
    }
}

/// The answer where a device gives no stream.
pub open spec fn no_config_message() -> Seq<char> {
    "Could not determine stream config for device"@
}

/// The answer where neither a device nor an application was found.
pub open spec fn no_source_message(name: Seq<char>) -> Seq<char> {
    "No audio device or application matching '"@ + name + "' found"@
}

/// The result of opening an input device of the list by a part of its name, or a DJI device.
pub open spec fn is_opened_input<Q: Fn(usize) -> ConfigAnswer>(
    names: Seq<Option<String>>,
    device_name: Option<Seq<char>>,
    query: Q,
    result: Result<(usize, StreamConfig), String>,
) -> bool {
    match result {
        Ok((index, config)) => {
            &&& crate::device::is_first_wanted(names, device_name, Some(index))
            &&& config_of(query, index, Some(config))
        },
        Err(message) => {
            ||| {
                &&& crate::device::is_first_wanted(names, device_name, None)
                &&& message@ == no_input_message(device_name)
            }
            ||| exists|index: usize|
                {
                    &&& #[trigger] crate::device::is_first_wanted(names, device_name, Some(index))
                    &&& config_of(query, index, None)
                    &&& message@ == no_config_message()
                }
        },
    }
}

/// The result of opening a source by a part of its name: a hardware device if one is meant,
/// else an application.
pub open spec fn is_named_source<Q: Fn(usize) -> ConfigAnswer, L: Fn() -> Vec<AppSource>>(
    names: Seq<Option<String>>,
    name: Seq<char>,
    query: Q,
    list_apps: L,
    result: Result<AudioSource, String>,
) -> bool {
    match result {
        Ok(AudioSource::Hardware { index, name: given, config }) => {
            &&& crate::device::is_first_wanted(names, Some(name), Some(index))
            &&& config_of(query, index, Some(config))
            &&& given == names[index as int]
        },
        Ok(AudioSource::App(app)) => {
            &&& crate::device::is_first_wanted(names, Some(name), None)
            &&& app_found(list_apps, name, Some(app))
        },
        Err(message) => {
            ||| exists|index: usize|
                {
                    &&& #[trigger] crate::device::is_first_wanted(names, Some(name), Some(index))
                    &&& config_of(query, index, None)
                    &&& message@ == no_config_message()
                }
            ||| {
                &&& crate::device::is_first_wanted(names, Some(name), None)
                &&& app_found(list_apps, name, None)
                &&& message@ == no_source_message(name)
            }
        },
    }
}

/// The result of opening the source that is taken where none is named: hardware only.
pub open spec fn is_default_source<Q: Fn(usize) -> ConfigAnswer>(
    names: Seq<Option<String>>,
    query: Q,
    result: Result<AudioSource, String>,
) -> bool {
    match result {
        Ok(AudioSource::Hardware { index, name, config }) => {
            &&& is_opened_input(names, None, query, Ok((index, config)))
            &&& name == names[index as int]
        },
        Ok(AudioSource::App(_)) => false,
        Err(message) => is_opened_input(names, None, query, Err(message)),
    }
}

/// Among the applications that `list_apps` can give, `found` is the first that is meant.
pub open spec fn app_found<L: Fn() -> Vec<AppSource>>(
    list_apps: L,
    name: Seq<char>,
    found: Option<AppSource>,
) -> bool {
    exists|apps: Vec<AppSource>| #[trigger]
        list_apps.ensures((), apps) && crate::sck::is_first_app(
            crate::sck::capturable(apps@),
            name,
            found,
        )
}

/// A device of the list, or an application, is meant by the name; without a name only a
/// device can be.
pub open spec fn is_connected<L: Fn() -> Vec<AppSource>>(
    names: Seq<Option<String>>,
    device_name: Option<Seq<char>>,
    list_apps: L,
    connected: bool,
) -> bool {
    if device_meant(names, device_name) {
        connected
    } else {
        match device_name {
            None => !connected,
            Some(name) => app_available(list_apps, name, connected),
        }
    }
}

/// Among the applications that `list_apps` can give, one is meant by the name if and only if
/// `connected`.
pub open spec fn app_available<L: Fn() -> Vec<AppSource>>(
    list_apps: L,
    name: Seq<char>,
    connected: bool,
) -> bool {
    exists|apps: Vec<AppSource>| #[trigger]
        list_apps.ensures((), apps) && connected == exists|j: int|
            0 <= j < crate::sck::capturable(apps@).len() && crate::sck::app_matches(
                #[trigger] crate::sck::capturable(apps@)[j],
                name,
            )
}

/// A device of the list is meant by the name, or is a DJI device if there is no name.
pub open spec fn device_meant(names: Seq<Option<String>>, device_name: Option<Seq<char>>) -> bool {
    exists|j: int|
        0 <= j < names.len() && crate::device::is_wanted(#[trigger] names[j], device_name)
}

impl AudioSource {
    /// The sample rate of the source, in Hz.
    pub open spec fn rate(&self) -> u32 {
        match *self {
            AudioSource::Hardware { config, .. } => config.sample_rate,
            AudioSource::App(_) => PREFERRED_RATE,
        }
    }

    /// The number of channels of the source.
    pub open spec fn channel_count(&self) -> u16 {
        match *self {
            AudioSource::Hardware { config, .. } => config.channels,
            AudioSource::App(_) => PREFERRED_CHANNELS,
        }
    }

    /// The name of the source.
    pub open spec fn title(&self) -> Seq<char> {
        match *self {
            AudioSource::Hardware { name, .. } => crate::device::shown_name(name),
            AudioSource::App(app) => app.name@,
        }
    }

    /// Whether the source is a DJI microphone.
    pub open spec fn dji(&self) -> bool {
        match *self {
            AudioSource::Hardware { name: Some(name), .. } => crate::device::is_dji_name(name@),
            _ => false,
        }
    }

    /// The sample rate of the source, in Hz.
    pub fn sample_rate(&self) -> (rate: u32)
        ensures
            rate == self.rate(),
    {
        match self {
            AudioSource::Hardware { config, .. } => config.sample_rate,
            AudioSource::App(_) => PREFERRED_RATE,
        }
    }

    /// The number of channels of the source.
    pub fn channels(&self) -> (channels: u16)
        ensures
            channels == self.channel_count(),
    {
        match self {
            AudioSource::Hardware { config, .. } => config.channels,
            AudioSource::App(_) => PREFERRED_CHANNELS,
        }
    }

    /// The name of the source, `Unknown` for a device that gives none.
    pub fn name(&self) -> (name: String)
        ensures
            name@ == self.title(),
    {
        match self {
            AudioSource::Hardware { name, .. } => match name {
                Some(given) => given.clone(),
                None => "Unknown".to_owned(),
            },
            AudioSource::App(app) => app.name.clone(),
        }
    }

    /// Whether the source is a DJI microphone.
    pub fn is_dji(&self) -> (dji: bool)
        ensures
            dji == self.dji(),
    {
        match self {
            AudioSource::Hardware { name, .. } => match name {
                Some(given) => is_dji_device_name(given.as_str()),
                None => false,
            },
            AudioSource::App(_) => false,
        }
    }
}

/// The error where no input device was found.
fn no_input_error(device_name: Option<&str>) -> (message: String)
    ensures
        message@ == no_input_message(crate::types::optional_text(device_name)),
{
    match device_name {
        Some(name) => {
            let mut message = String::new();
            message.append("Audio input device matching '");
            message.append(name);
            message.append("' not found");
            assert(message@ =~= no_input_message(Some(name@)));
            message
        },
        None => "No audio input device found".to_owned(),
    }
}

/// Opens an input device of the list by a part of its name, or a DJI device if no name is
/// given: its place in the list and the stream to capture. `query` asks a device for its
/// streams.
pub fn open_input_device<Q: Fn(usize) -> ConfigAnswer>(
    names: &Vec<Option<String>>,
    device_name: Option<&str>,
    query: Q,
) -> (result: Result<(usize, StreamConfig), String>)
    requires
        answers_all(query, names@.len()),
    ensures
        is_opened_input(names@, crate::types::optional_text(device_name), query, result),
{
    match find_audio_device(names, device_name) {
        None => Err(no_input_error(device_name)),
        Some(index) => {
            let answer = query(index);
            let config = preferred_stream_config(answer.supported, answer.default);
            assert(config_of(query, index, config));
            match config {
                Some(chosen) => Ok((index, chosen)),
                None => Err("Could not determine stream config for device".to_owned()),
            }
        },
    }
}

/// Opens a source by a part of its name: hardware first, then the applications that
/// `list_apps` gives. Without a name only hardware is considered, and a DJI device is taken.
pub fn open_audio_source<Q: Fn(usize) -> ConfigAnswer, L: Fn() -> Vec<AppSource>>(
    names: &Vec<Option<String>>,
    device_name: Option<&str>,
    query: Q,
    list_apps: L,
) -> (result: Result<AudioSource, String>)
    requires
        answers_all(query, names@.len()),
        list_apps.requires(()),
    ensures
        match device_name {
            None => is_default_source(names@, query, result),
            Some(name) => is_named_source(names@, name@, query, list_apps, result),
        },
{
    match device_name {
        None => match open_input_device(names, None, query) {
            Ok((index, config)) => Ok(
                AudioSource::Hardware { index, name: copy_name(&names[index]), config },
            ),
            Err(message) => Err(message),
        },
        Some(name) => {
            match find_audio_device(names, Some(name)) {
                Some(index) => {
                    let answer = query(index);
                    let config = preferred_stream_config(answer.supported, answer.default);
                    assert(config_of(query, index, config));
                    return match config {
                        Some(chosen) => Ok(
                            AudioSource::Hardware {
                                index,
                                name: copy_name(&names[index]),
                                config: chosen,
                            },
                        ),
                        None => Err("Could not determine stream config for device".to_owned()),
                    };
                },
                None => {},
            }
            let apps = list_apps();
            let found = find_app_source(apps, name);
            assert(app_found(list_apps, name@, found));
            match found {
                Some(app) => Ok(AudioSource::App(app)),
                None => {
                    let mut message = String::new();
                    message.append("No audio device or application matching '");
                    message.append(name);
                    message.append("' found");
                    assert(message@ =~= no_source_message(name@));
                    Err(message)
                },
            }
        },
    }
}

/// A copy of an optional name.
fn copy_name(name: &Option<String>) -> (copy: Option<String>)
    ensures
        copy == *name,
{
    match name {
        Some(given) => Some(given.clone()),
        None => None,
    }
}

/// Whether the DJI microphone is among the input devices.
pub fn is_dji_device_connected(names: &Vec<Option<String>>) -> (connected: bool)
    ensures
        connected == device_meant(names@, None),
{
    find_dji_audio_device(names).is_some()
}

/// Whether an input device or an application is available that the name means; without a
/// name, whether a DJI device is.
pub fn is_device_connected<L: Fn() -> Vec<AppSource>>(
    names: &Vec<Option<String>>,
    device_name: Option<&str>,
    list_apps: L,
) -> (connected: bool)
    requires
        list_apps.requires(()),
    ensures
        is_connected(names@, crate::types::optional_text(device_name), list_apps, connected),
{
    if find_audio_device(names, device_name).is_some() {
        return true;
    }
    match device_name {
        Some(name) => {
            let apps = list_apps();
            let connected = find_app_source(apps, name).is_some();
            assert(app_available(list_apps, name@, connected));
            connected
        },
        None => false,
    }
}

/// Whether the DJI microphone is connected, whether any device is where none is named, and
/// whether one is found where none is named, is the same question.
pub proof fn law_connected_means_found<L: Fn() -> Vec<AppSource>>(
    names: Seq<Option<String>>,
    list_apps: L,
    connected: bool,
    found: Option<usize>,
)
    requires
        is_connected(names, None, list_apps, connected),
        crate::device::is_first_wanted(names, None, found),
    ensures
        connected == device_meant(names, None),
        connected == found is Some,
{
    if let Some(i) = found {
        assert(crate::device::is_wanted(names[i as int], None));
    }
}

/// Where a DJI device is connected, the query `dji` finds a device as well.
pub proof fn law_dji_query_finds_a_device<L: Fn() -> Vec<AppSource>>(
    names: Seq<Option<String>>,
    list_apps: L,
    connected: bool,
)
    requires
        device_meant(names, None),
        is_connected(names, Some("dji"@), list_apps, connected),
    ensures
        connected,
{
    let i = choose|i: int|
        0 <= i < names.len() && crate::device::is_wanted(#[trigger] names[i], None);
    crate::device::law_dji_query_means_dji(names[i]->0@);
    assert(crate::device::is_wanted(names[i], Some("dji"@)));
}

/// A device is captured at the rate and with the channels of its stream and an application in
/// stereo at 48 kHz. A source goes by its own name, `Unknown` for a device without one, and is
/// a DJI microphone if it is a device with such a name.
pub proof fn law_source_shows_itself(source: AudioSource)
    ensures
        match source {
            AudioSource::Hardware { name, config, .. } => {
                &&& source.rate() == config.sample_rate
                &&& source.channel_count() == config.channels
                &&& name is Some ==> source.title() == name->0@
                &&& name is None ==> source.title() == "Unknown"@
                &&& source.dji() == (name is Some && crate::device::is_dji_name(name->0@))
            },
            AudioSource::App(app) => {
                &&& source.rate() == 48000
                &&& source.channel_count() == 2
                &&& source.title() == app.name@
                &&& !source.dji()
            },
        },
{
}

/// An input is opened where a device is meant and gives a stream, and it is the first that is
/// meant with the stream to capture from it; the two errors tell whether there was no device
/// or no stream.
pub proof fn law_input_is_opened<Q: Fn(usize) -> ConfigAnswer>(
    names: Seq<Option<String>>,
    device_name: Option<Seq<char>>,
    query: Q,
    result: Result<(usize, StreamConfig), String>,
)
    requires
        is_opened_input(names, device_name, query, result),
    ensures
        match result {
            Ok((index, config)) => crate::device::is_first_wanted(names, device_name, Some(index))
                && exists|answer: ConfigAnswer| #[trigger]
                query.ensures((index,), answer) && crate::device::chosen_config(
                    crate::device::optional_configs(answer.supported),
                    answer.default,
                ) == Some(config),
            Err(message) => if crate::device::is_first_wanted(names, device_name, None) {
                message@ == match device_name {
                    Some(name) => "Audio input device matching '"@ + name + "' not found"@,
                    None => "No audio input device found"@,
                }
            } else {
                message@ == "Could not determine stream config for device"@ && exists|
                    index: usize,
                    answer: ConfigAnswer,
                |
                    crate::device::is_first_wanted(names, device_name, Some(index))
                        && #[trigger] query.ensures((index,), answer)
                        && crate::device::chosen_config(
                        crate::device::optional_configs(answer.supported),
                        answer.default,
                    ) is None
            },
        },
{
    if let Err(message) = result {
        if !crate::device::is_first_wanted(names, device_name, None) {
            let index = choose|index: usize|
                {
                    &&& #[trigger] crate::device::is_first_wanted(names, device_name, Some(index))
                    &&& config_of(query, index, None)
                    &&& message@ == no_config_message()
                };
            let answer = choose|answer: ConfigAnswer| #[trigger]
                query.ensures((index,), answer) && crate::device::chosen_config(
                    crate::device::optional_configs(answer.supported),
                    answer.default,
                ) is None;
            assert(query.ensures((index,), answer));
        } else {
            assert forall|index: usize| !(#[trigger] crate::device::is_first_wanted(
                names,
                device_name,
                Some(index),
            )) by {
                if crate::device::is_first_wanted(names, device_name, Some(index)) {
                    crate::device::law_one_device_is_meant(names, device_name, Some(index), None);
                }
            }
        }
    }
}

/// A source that is asked for by name is the first device that the name means, and only where
/// no device is meant the first application that is; where neither is, the error names the
/// query.
pub proof fn law_named_source_is_opened<
    Q: Fn(usize) -> ConfigAnswer,
    L: Fn() -> Vec<AppSource>,
>(
    names: Seq<Option<String>>,
    name: Seq<char>,
    query: Q,
    list_apps: L,
    result: Result<AudioSource, String>,
)
    requires
        is_named_source(names, name, query, list_apps, result),
    ensures
        match result {
            Ok(AudioSource::Hardware { index, name: given, config }) => {
                &&& crate::device::is_first_wanted(names, Some(name), Some(index))
                &&& given == names[index as int]
                &&& exists|answer: ConfigAnswer| #[trigger]
                    query.ensures((index,), answer) && crate::device::chosen_config(
                        crate::device::optional_configs(answer.supported),
                        answer.default,
                    ) == Some(config)
            },
            Ok(AudioSource::App(app)) => {
                &&& crate::device::is_first_wanted(names, Some(name), None)
                &&& exists|apps: Vec<AppSource>| #[trigger]
                    list_apps.ensures((), apps) && crate::sck::is_first_app(
                        crate::sck::capturable(apps@),
                        name,
                        Some(app),
                    )
            },
            Err(message) => if crate::device::is_first_wanted(names, Some(name), None) {
                &&& message@ == "No audio device or application matching '"@ + name + "' found"@
                &&& exists|apps: Vec<AppSource>| #[trigger]
                    list_apps.ensures((), apps) && crate::sck::is_first_app(
                        crate::sck::capturable(apps@),
                        name,
                        None,
                    )
            } else {
                message@ == "Could not determine stream config for device"@
            },
        },
{
    if let Err(message) = result {
        if crate::device::is_first_wanted(names, Some(name), None) {
            assert forall|index: usize| !(#[trigger] crate::device::is_first_wanted(
                names,
                Some(name),
                Some(index),
            )) by {
                if crate::device::is_first_wanted(names, Some(name), Some(index)) {
                    crate::device::law_one_device_is_meant(names, Some(name), Some(index), None);
                }
            }
        }
    }
}

/// Without a name the source is the first DJI device with the stream to capture from it, never
/// an application; the errors are those of opening an input.
pub proof fn law_default_source_is_a_dji_device<Q: Fn(usize) -> ConfigAnswer>(
    names: Seq<Option<String>>,
    query: Q,
    result: Result<AudioSource, String>,
)
    requires
        is_default_source(names, query, result),
    ensures
        match result {
            Ok(AudioSource::Hardware { index, name, config }) => {
                &&& crate::device::is_first_wanted(names, None, Some(index))
                &&& name == names[index as int]
                &&& exists|answer: ConfigAnswer| #[trigger]
                    query.ensures((index,), answer) && crate::device::chosen_config(
                        crate::device::optional_configs(answer.supported),
                        answer.default,
                    ) == Some(config)
            },
            Ok(AudioSource::App(_)) => false,
            Err(message) => message@ == (if crate::device::is_first_wanted(names, None, None) {
                "No audio input device found"@
            } else {
                "Could not determine stream config for device"@
            }),
        },
{
    match result {
        Err(message) => {
            law_input_is_opened(names, None, query, Err(message));
        },
        _ => {},
    }
}

/// A source is connected where a device is meant; else, with a name, where an application is
/// meant that can be captured, and without one not.
pub proof fn law_connected_means_device_or_app<L: Fn() -> Vec<AppSource>>(
    names: Seq<Option<String>>,
    device_name: Option<Seq<char>>,
    list_apps: L,
    connected: bool,
)
    requires
        is_connected(names, device_name, list_apps, connected),
    ensures
        !crate::device::is_first_wanted(names, device_name, None) ==> connected,
        crate::device::is_first_wanted(names, device_name, None) && device_name is None
            ==> !connected,
        crate::device::is_first_wanted(names, device_name, None) && device_name is Some
            ==> exists|apps: Vec<AppSource>| #[trigger]
            list_apps.ensures((), apps) && connected != crate::sck::is_first_app(
                crate::sck::capturable(apps@),
                device_name->0,
                None,
            ),
{
    if crate::device::is_first_wanted(names, device_name, None) {
        assert(!device_meant(names, device_name));
        if let Some(name) = device_name {
            let apps = choose|apps: Vec<AppSource>| #[trigger]
                list_apps.ensures((), apps) && connected == exists|j: int|
                    0 <= j < crate::sck::capturable(apps@).len() && crate::sck::app_matches(
                        #[trigger] crate::sck::capturable(apps@)[j],
                        name,
                    );
            assert(connected != crate::sck::is_first_app(
                crate::sck::capturable(apps@),
                name,
                None,
            ));
        }
    } else {
        assert(device_meant(names, device_name));
    }
}

} // verus!
