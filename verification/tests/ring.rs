use plexus_listen::ring::{
    available, create_monitor_buffer, create_ring_buffer, drain, pop_samples, push_samples,
    push_samples_dual, MONITOR_BUFFER_FRAMES, RING_BUFFER_FRAMES,
};

#[test]
fn first_in_first_out() {
    let (mut producer, mut consumer) = create_ring_buffer(1);
    assert_eq!(available(&mut consumer), 0);
    assert_eq!(push_samples(&mut producer, &[1, 2, 3]), 3);
    assert_eq!(push_samples(&mut producer, &[4]), 1);
    assert_eq!(available(&mut consumer), 4);
    let mut room = vec![9, 9, 9];
    assert_eq!(pop_samples(&mut consumer, &mut room), 3);
    assert_eq!(room, vec![1, 2, 3]);
    assert_eq!(pop_samples(&mut consumer, &mut room), 1);
    assert_eq!(room, vec![4, 2, 3]);
    assert_eq!(pop_samples(&mut consumer, &mut room), 0);
}

#[test]
fn draining_takes_what_waits() {
    let (mut producer, mut consumer) = create_ring_buffer(2);
    let mut window = vec![7, 7, 7, 7];
    drain(&mut consumer, &mut window);
    assert!(window.is_empty());
    push_samples(&mut producer, &[5, 6]);
    drain(&mut consumer, &mut window);
    assert_eq!(window, vec![5, 6]);
    drain(&mut consumer, &mut window);
    assert!(window.is_empty());
}

#[test]
fn a_full_buffer_loses_the_newest() {
    let (mut producer, mut consumer) = create_ring_buffer(1);
    let samples: Vec<u32> = (0..RING_BUFFER_FRAMES as u32 + 5).collect();
    assert_eq!(push_samples(&mut producer, &samples), RING_BUFFER_FRAMES);
    assert_eq!(push_samples(&mut producer, &[1]), 0);
    let mut window = Vec::new();
    drain(&mut consumer, &mut window);
    assert_eq!(window, samples[..RING_BUFFER_FRAMES].to_vec());
    assert_eq!(push_samples(&mut producer, &[1]), 1);
}

#[test]
fn buffers_are_sized_by_channels() {
    let (mut producer, _consumer) = create_ring_buffer(2);
    assert_eq!(push_samples(&mut producer, &vec![0; 1_000_000]), 960_000);
    let (mut monitor, _output) = create_monitor_buffer(2);
    assert_eq!(push_samples(&mut monitor, &vec![0; 1_000_000]), 192_000);
    assert_eq!(MONITOR_BUFFER_FRAMES, 48000 * 2);
}

#[test]
fn two_buffers_get_the_same_samples() {
    let (mut a, mut from_a) = create_ring_buffer(1);
    let (mut b, mut from_b) = create_monitor_buffer(1);
    assert_eq!(push_samples_dual(&mut a, &mut b, &[1, 2]), (2, 2));
    let mut window = Vec::new();
    drain(&mut from_a, &mut window);
    assert_eq!(window, vec![1, 2]);
    drain(&mut from_b, &mut window);
    assert_eq!(window, vec![1, 2]);
}
