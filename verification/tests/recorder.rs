use plexus_listen::recorder::WavRecorder;

fn seconds(frames: u64, rate: u32) -> u32 {
    (frames as f32 / rate as f32).to_bits()
}

#[test]
fn whole_frames_are_counted() {
    let mut recorder = WavRecorder::new("/tmp/a.wav".to_string(), 48000, 2);
    assert_eq!(recorder.file_size_bytes(), 44);
    recorder.write_samples(&[0; 9]);
    assert_eq!(recorder.frames_written, 4);
    recorder.write_samples(&[0; 2]);
    assert_eq!(recorder.frames_written, 5);
    assert_eq!(recorder.file_size_bytes(), 44 + 5 * 2 * 4);
    assert_eq!(recorder.path(), "/tmp/a.wav");
}

#[test]
fn the_file_holds_real_samples() {
    let format = WavRecorder::new(String::new(), 44100, 3).format();
    assert_eq!((format.channels, format.sample_rate), (3, 44100));
    assert_eq!((format.bits_per_sample, format.real_samples), (32, true));
}

#[test]
fn the_duration_is_frames_by_rate() {
    let mut recorder = WavRecorder::new("x".to_string(), 4, 1);
    recorder.write_samples(&[0; 6]);
    assert_eq!(f32::from_bits(recorder.duration_secs(seconds)), 1.5);
    let (path, duration) = recorder.finalize(seconds);
    assert_eq!(path, "x");
    assert_eq!(f32::from_bits(duration), 1.5);
}

#[test]
fn counting_in_parts_adds_up() {
    let mut parts = WavRecorder::new("x".to_string(), 4, 3);
    parts.write_samples(&[0; 6]);
    parts.write_samples(&[0; 7]);
    let mut whole = WavRecorder::new("x".to_string(), 4, 3);
    whole.write_samples(&[0; 13]);
    assert_eq!(parts, whole);
}

#[test]
fn a_frame_split_over_two_writes_counts() {
    let mut recorder = WavRecorder::new("/tmp/out.wav".to_string(), 48000, 2);
    recorder.write_samples(&[0.1f32.to_bits()]);
    assert_eq!((recorder.frames_written, recorder.partial), (0, 1));
    recorder.write_samples(&[0.2f32.to_bits()]);
    assert_eq!((recorder.frames_written, recorder.partial), (1, 0));
    assert_eq!(f32::from_bits(recorder.duration_secs(seconds)), 1.0 / 48000.0);
    assert_eq!(recorder.file_size_bytes(), 44 + 8);
    let mut parts = WavRecorder::new("x".to_string(), 4, 3);
    for _ in 0..7 {
        parts.write_samples(&[0; 2]);
    }
    assert_eq!((parts.frames_written, parts.partial), (4, 2));
}

#[test]
fn full_frames_grow_the_file_by_their_samples() {
    let mut recorder = WavRecorder::new("x".to_string(), 4, 3);
    recorder.write_samples(&[0; 5]);
    let (frames, size) = (recorder.frames_written, recorder.file_size_bytes());
    recorder.write_samples(&[0; 12]);
    assert_eq!(recorder.frames_written, frames + 4);
    assert_eq!(recorder.file_size_bytes(), size + 4 * 12);
    assert_eq!((recorder.partial, recorder.path()), (2, "x"));
}
