use plexus_listen::device::{StreamConfig, SupportedConfig};
use plexus_listen::monitor::{
    choose_output_config, create_monitor_rings, deinterleave_block, fill_output, interleave_block,
    needs_resample, next_block, push_block,
};
use plexus_listen::ring::{available, create_ring_buffer, drain, push_samples};

fn stream(channels: u16, sample_rate: u32) -> StreamConfig {
    StreamConfig { channels, sample_rate }
}

#[test]
fn the_output_follows_the_input_if_it_can() {
    let input = stream(2, 48000);
    let fallback = || Ok(stream(6, 44100));
    let wide = vec![
        SupportedConfig { channels: 1, min_rate: 8000, max_rate: 96000 },
        SupportedConfig { channels: 8, min_rate: 48000, max_rate: 48000 },
    ];
    assert_eq!(choose_output_config(input, &wide, fallback), Ok(input));
    let narrow = vec![SupportedConfig { channels: 2, min_rate: 44100, max_rate: 44100 }];
    assert_eq!(choose_output_config(input, &narrow, fallback), Ok(stream(6, 44100)));
    let broken = || Err("no default".to_string());
    assert_eq!(choose_output_config(input, &narrow, broken), Err("no default".to_string()));
    assert_eq!(choose_output_config(input, &wide, broken), Ok(input));
}

#[test]
fn the_rings_connect_the_caller_to_the_output() {
    assert!(!needs_resample(stream(2, 48000), stream(6, 48000)));
    let mut rings = create_monitor_rings(stream(2, 48000), stream(6, 48000));
    assert!(rings.resampler.is_none());
    assert_eq!(push_samples(&mut rings.feed, &[1, 2]), 2);
    let mut window = Vec::new();
    drain(&mut rings.play, &mut window);
    assert_eq!(window, vec![1, 2]);

    let mut rings = create_monitor_rings(stream(2, 48000), stream(1, 44100));
    let (mut staging, mut staged) = rings.resampler.take().unwrap();
    push_samples(&mut rings.feed, &[3, 4]);
    drain(&mut rings.play, &mut window);
    assert!(window.is_empty());
    drain(&mut staging, &mut window);
    assert_eq!(window, vec![3, 4]);
    push_samples(&mut staged, &[5]);
    drain(&mut rings.play, &mut window);
    assert_eq!(window, vec![5]);
    assert_eq!(push_samples(&mut rings.feed, &vec![0; 200_000]), 192_000);
    assert_eq!(push_samples(&mut staged, &vec![0; 200_000]), 96_000);
}

#[test]
fn output_is_filled_up_with_silence() {
    let (mut producer, mut consumer) = create_ring_buffer(2);
    push_samples(&mut producer, &[1, 2, 3]);
    let mut data = vec![9; 5];
    fill_output(&mut consumer, &mut data, 2, 2);
    assert_eq!(data, vec![1, 2, 3, 0, 0]);
    fill_output(&mut consumer, &mut data, 2, 2);
    assert_eq!(data, vec![0; 5]);
}

#[test]
fn more_output_channels_stay_silent() {
    let (mut producer, mut consumer) = create_ring_buffer(2);
    push_samples(&mut producer, &[1, 2, 3, 4]);
    let mut data = vec![9; 10];
    fill_output(&mut consumer, &mut data, 3, 2);
    assert_eq!(data, vec![1, 2, 0, 3, 4, 0, 0, 0, 0, 9]);
}

#[test]
fn fewer_output_channels_drop_the_others() {
    let (mut producer, mut consumer) = create_ring_buffer(3);
    push_samples(&mut producer, &[1, 2, 3, 4, 5, 6]);
    let mut data = vec![9; 2];
    fill_output(&mut consumer, &mut data, 1, 3);
    assert_eq!(data, vec![1, 4]);
}

#[test]
fn an_incomplete_frame_keeps_what_was_there() {
    let (mut producer, mut consumer) = create_ring_buffer(2);
    push_samples(&mut producer, &[1, 2, 3]);
    let mut data = vec![9; 9];
    fill_output(&mut consumer, &mut data, 3, 2);
    assert_eq!(data, vec![1, 2, 0, 3, 2, 0, 0, 0, 0]);
    let mut data = vec![9; 3];
    fill_output(&mut consumer, &mut data, 3, 0);
    assert_eq!(data, vec![0; 3]);
}

#[test]
fn blocks_are_split_and_interleaved() {
    let block = deinterleave_block(&vec![1, 2, 3, 4, 5], 4, 2);
    assert_eq!(block, vec![vec![1, 3, 0, 0], vec![2, 4, 0, 0]]);
    assert_eq!(interleave_block(&block, 2, 2), vec![1, 2, 3, 4]);
    assert_eq!(interleave_block(&block, 1, 1), vec![1]);
    assert_eq!(interleave_block(&Vec::new(), 5, 0), Vec::<u32>::new());
    let samples: Vec<u32> = (0..30).collect();
    assert_eq!(interleave_block(&deinterleave_block(&samples, 10, 3), 10, 3), samples);
}

#[test]
fn the_resampler_waits_for_a_whole_block() {
    let (mut producer, mut consumer) = create_ring_buffer(2);
    push_samples(&mut producer, &[1, 2, 3]);
    assert_eq!(next_block(&mut consumer, 2, 2), None);
    push_samples(&mut producer, &[4, 5]);
    assert_eq!(next_block(&mut consumer, 2, 2), Some(vec![vec![1, 3], vec![2, 4]]));
    assert_eq!(next_block(&mut consumer, 2, 2), None);
    assert_eq!(next_block(&mut consumer, 0, 2), None);
    let mut window = Vec::new();
    drain(&mut consumer, &mut window);
    assert_eq!(window, vec![5]);
}

#[test]
fn resampled_blocks_reach_the_output() {
    let (mut producer, mut consumer) = create_ring_buffer(2);
    assert_eq!(push_block(&mut producer, &vec![vec![1, 3, 7], vec![2, 4, 8]], 2, 2), 4);
    let mut window = Vec::new();
    drain(&mut consumer, &mut window);
    assert_eq!(window, vec![1, 2, 3, 4]);
}

#[test]
fn queued_frames_are_played_before_silence() {
    let (mut producer, mut consumer) = create_ring_buffer(2);
    push_samples(&mut producer, &[1, 2, 3, 4]);
    assert_eq!(available(&mut consumer), 4);
    let mut data = vec![9; 15];
    fill_output(&mut consumer, &mut data, 3, 2);
    assert_eq!(data, vec![1, 2, 0, 3, 4, 0, 0, 0, 0, 0, 0, 0, 0, 0, 0]);
    assert_eq!(available(&mut consumer), 0);
}

#[test]
fn without_resampling_no_output_buffer_is_made() {
    let rings = create_monitor_rings(stream(2, 48000), stream(0, 48000));
    assert!(rings.resampler.is_none());
}
