use plexus_listen::meter::deinterleave_channel;
use plexus_listen::ring::{create_ring_buffer, drain, push_samples, RING_BUFFER_FRAMES};
use plexus_listen::sck::{
    interleave_pair, list_capturable_apps, locate_app, push_audio_samples, AppSource, AudioBuffer,
};

fn app(name: &str, pid: i32) -> AppSource {
    AppSource { name: name.to_string(), bundle_id: format!("id.{}", pid), pid }
}

fn buffer(number_channels: u32, samples: &[u32]) -> AudioBuffer {
    AudioBuffer {
        number_channels,
        data: samples.iter().flat_map(|s| s.to_le_bytes()).collect(),
    }
}

fn pushed(buffers: Vec<AudioBuffer>) -> Vec<u32> {
    let (mut producer, mut consumer) = create_ring_buffer(2);
    push_audio_samples(&buffers, &mut producer);
    let mut window = Vec::new();
    drain(&mut consumer, &mut window);
    window
}

#[test]
fn applications_are_ordered_and_named() {
    let apps = vec![app("zoom", 1), app("", 2), app("Arc", 3), app("arc", 4), app("Brave", 5)];
    let offer = list_capturable_apps(apps);
    let names: Vec<(&str, i32)> = offer.iter().map(|a| (a.name.as_str(), a.pid)).collect();
    assert_eq!(names, vec![("Arc", 3), ("arc", 4), ("Brave", 5), ("zoom", 1)]);
}

#[test]
fn neighbours_of_one_process_are_offered_once() {
    let apps = vec![app("b", 7), app("a", 7), app("c", 8), app("d", 7)];
    let offer = list_capturable_apps(apps);
    let names: Vec<&str> = offer.iter().map(|a| a.name.as_str()).collect();
    assert_eq!(names, vec!["a", "c", "d"]);
}

#[test]
fn the_order_is_that_of_a_stable_sort() {
    let words = ["Éclair", "eclair", "ÉCLAIR", "b", "B", "a", "Z", "ß", "SS"];
    let apps: Vec<AppSource> =
        words.iter().enumerate().map(|(i, w)| app(w, i as i32)).collect();
    let mut expected = apps.clone();
    expected.sort_by_key(|a| a.name.to_lowercase());
    assert_eq!(list_capturable_apps(apps), expected);
}

#[test]
fn a_chosen_application_is_located_by_process() {
    let chosen = app("Music", -3);
    assert_eq!(locate_app(&chosen, &vec![1, -3, -3]), Ok(1));
    assert_eq!(
        locate_app(&chosen, &vec![1]),
        Err("Application 'Music' (PID -3) is no longer running".to_string())
    );
    assert_eq!(
        locate_app(&app("x", i32::MIN), &Vec::new()),
        Err(format!("Application '{}' (PID {}) is no longer running", "x", i32::MIN))
    );
}

#[test]
fn planar_audio_is_interleaved() {
    assert_eq!(pushed(vec![buffer(1, &[1, 2, 3]), buffer(1, &[4, 5])]), vec![1, 4, 2, 5, 3, 0]);
    assert_eq!(
        pushed(vec![buffer(1, &[1]), buffer(1, &[2]), buffer(1, &[3])]),
        vec![1, 2]
    );
    assert_eq!(interleave_pair(&vec![], &vec![7]), vec![0, 7]);
}

#[test]
fn interleaved_audio_is_passed_on() {
    assert_eq!(pushed(vec![buffer(2, &[1, 2]), buffer(2, &[3])]), vec![1, 2, 3]);
    assert_eq!(pushed(vec![buffer(1, &[5, 6])]), vec![5, 6]);
    assert_eq!(pushed(vec![buffer(2, &[]), buffer(1, &[9])]), vec![9]);
    assert_eq!(pushed(vec![]), Vec::<u32>::new());
    let odd = AudioBuffer { number_channels: 2, data: vec![1, 0, 0, 0, 2] };
    assert_eq!(pushed(vec![odd]), vec![1]);
}

#[test]
fn what_does_not_fit_is_lost() {
    let (mut producer, mut consumer) = create_ring_buffer(1);
    push_samples(&mut producer, &vec![0; RING_BUFFER_FRAMES - 1]);
    push_audio_samples(&vec![buffer(2, &[1, 2]), buffer(2, &[3])], &mut producer);
    let mut window = Vec::new();
    drain(&mut consumer, &mut window);
    assert_eq!(window.len(), RING_BUFFER_FRAMES);
    assert_eq!(window[RING_BUFFER_FRAMES - 1], 1);
}

#[test]
fn planar_channels_come_back() {
    let (left, right) = (vec![1, 2, 3], vec![4, 5, 6]);
    let samples = interleave_pair(&left, &right);
    assert_eq!(deinterleave_channel(&samples, 0, 2), left);
    assert_eq!(deinterleave_channel(&samples, 1, 2), right);
}
