use plexus_listen::meter::{
    analyze_channel, channel_correlation, channel_peak, compute_channel_level, compute_levels,
    deinterleave_channel, quiet_part, to_dbfs, Arithmetic, SIGNAL_MARGIN_DB, SILENCE_DBFS,
};

fn bits(samples: &[f32]) -> Vec<u32> {
    samples.iter().map(|s| s.to_bits()).collect()
}

/// Root mean square of samples.
fn rms(samples: &[u32]) -> u32 {
    let mut sum_sq = 0.0f64;
    for &s in samples {
        let x = f32::from_bits(s) as f64;
        sum_sq += x * x;
    }
    ((sum_sq / samples.len() as f64).sqrt() as f32).to_bits()
}

#[test]
fn test_silence() {
    let samples = bits(&vec![0.0f32; 960]); // 10ms at 48kHz stereo
    let levels = compute_levels(&samples, 2, &rms);
    assert_eq!(f32::from_bits(levels.rms_left), 0.0);
    assert_eq!(f32::from_bits(levels.rms_right), 0.0);
    assert_eq!(f32::from_bits(levels.peak_left), 0.0);
    assert_eq!(f32::from_bits(levels.peak_right), 0.0);
}

#[test]
fn test_full_scale() {
    // Constant 1.0 on left, 0.5 on right (interleaved stereo)
    let mut samples = Vec::new();
    for _ in 0..480 {
        samples.push(1.0f32);
        samples.push(0.5f32);
    }
    let levels = compute_levels(&bits(&samples), 2, &rms);
    assert!((f32::from_bits(levels.rms_left) - 1.0).abs() < 0.001);
    assert!((f32::from_bits(levels.rms_right) - 0.5).abs() < 0.001);
    assert!((f32::from_bits(levels.peak_left) - 1.0).abs() < 0.001);
    assert!((f32::from_bits(levels.peak_right) - 0.5).abs() < 0.001);
}

#[test]
fn test_empty() {
    let levels = compute_levels(&[], 2, &rms);
    assert_eq!(f32::from_bits(levels.rms_left), 0.0);
}

#[test]
fn levels_without_channels_are_zero() {
    let levels = compute_levels(&bits(&[1.0, 1.0]), 0, &rms);
    assert_eq!(levels.rms_left, 0);
    assert_eq!(levels.peak_right, 0);
}

#[test]
fn mono_is_shown_on_both_sides() {
    let levels = compute_levels(&bits(&[0.25, -0.75]), 1, &rms);
    assert_eq!(levels.rms_left, levels.rms_right);
    assert_eq!(f32::from_bits(levels.peak_left), 0.75);
    assert_eq!(f32::from_bits(levels.peak_right), 0.75);
}

#[test]
fn one_sample_leaves_the_right_side_silent() {
    let levels = compute_levels(&bits(&[-0.5]), 2, &rms);
    assert_eq!(f32::from_bits(levels.peak_left), 0.5);
    assert_eq!(levels.rms_right, 0);
    assert_eq!(levels.peak_right, 0);
}

#[test]
fn only_the_first_two_channels_are_read() {
    let levels = compute_levels(&bits(&[0.1, 0.2, 0.9, 0.3, 0.1, 0.8]), 3, &rms);
    assert_eq!(f32::from_bits(levels.peak_left), 0.3);
    assert_eq!(f32::from_bits(levels.peak_right), 0.2);
}

#[test]
fn the_peak_follows_the_comparison_of_numbers() {
    let values = [0.5f32, -2.0, f32::NAN, 1.5, -0.0, f32::MIN_POSITIVE, -f32::NAN];
    let mut peak = 0.0f32;
    for v in values {
        if v.abs() > peak {
            peak = v.abs();
        }
    }
    assert_eq!(channel_peak(&bits(&values)), peak.to_bits());
    assert_eq!(channel_peak(&bits(&[1.0, f32::NEG_INFINITY])), f32::INFINITY.to_bits());
    assert_eq!(channel_peak(&bits(&[f32::NAN])), 0);
    assert_eq!(channel_peak(&[]), 0);
}

#[test]
fn channel_level_of_one_channel() {
    let reading = compute_channel_level(&bits(&[3.0, -4.0]), &rms);
    assert!((f32::from_bits(reading.rms) - 12.5f32.sqrt()).abs() < 0.0001);
    assert_eq!(f32::from_bits(reading.peak), 4.0);
    let none = compute_channel_level(&[], &rms);
    assert_eq!((none.rms, none.peak), (0, 0));
}

#[test]
fn deinterleaving_takes_every_nth_sample() {
    assert_eq!(deinterleave_channel(&[1, 2, 3, 4, 5], 0, 2), vec![1, 3, 5]);
    assert_eq!(deinterleave_channel(&[1, 2, 3, 4, 5], 1, 2), vec![2, 4]);
    assert_eq!(deinterleave_channel(&[1, 2, 3, 4, 5], 4, 3), vec![5]);
    assert_eq!(deinterleave_channel(&[1, 2, 3], 3, 2), Vec::<u32>::new());
    assert_eq!(deinterleave_channel(&[], 0, 1), Vec::<u32>::new());
    assert_eq!(deinterleave_channel(&[7, 8], 0, usize::MAX), vec![7]);
    for len in 0..20u32 {
        for total in 1..5usize {
            for channel in 0..6usize {
                let samples: Vec<u32> = (0..len).collect();
                let expected: Vec<u32> =
                    samples.iter().skip(channel).step_by(total).copied().collect();
                assert_eq!(deinterleave_channel(&samples, channel, total), expected);
            }
        }
    }
}

#[test]
fn every_sample_is_in_exactly_one_channel() {
    let samples: Vec<u32> = (100..117).collect();
    let mut seen: Vec<u32> = Vec::new();
    for channel in 0..3 {
        seen.extend(deinterleave_channel(&samples, channel, 3));
    }
    seen.sort();
    assert_eq!(seen, samples);
}

#[test]
fn the_quiet_part_is_the_lowest_fifth() {
    let samples = bits(&[-0.9, 0.1, 0.5, -0.2, 0.7, 0.3, -0.05, 0.8, 0.6, 0.4]);
    assert_eq!(quiet_part(&samples), bits(&[0.05, 0.1]));
    assert_eq!(quiet_part(&bits(&[-0.3, 0.2])), bits(&[0.2]));
    // The fifth of a length is the fifth that real arithmetic gives.
    for len in 1..3000usize {
        let expected = ((len as f64 * 0.2) as usize).max(1);
        assert_eq!(quiet_part(&vec![1u32; len]).len(), expected);
    }
}

fn mean(samples: &[u32]) -> u32 {
    let sum: f64 = samples.iter().map(|&s| f32::from_bits(s) as f64).sum();
    ((sum / samples.len() as f64) as f32).to_bits()
}

fn decibels(linear: u32) -> u32 {
    (20.0 * f32::from_bits(linear).log10()).to_bits()
}

fn sum(a: u32, b: u32) -> u32 {
    (f32::from_bits(a) + f32::from_bits(b)).to_bits()
}

fn difference(a: u32, b: u32) -> u32 {
    (f32::from_bits(a) - f32::from_bits(b)).to_bits()
}

#[test]
fn amplitudes_that_are_not_above_zero_are_silence() {
    assert_eq!(f32::from_bits(SILENCE_DBFS), -120.0);
    for silent in [0.0f32, -0.0, -1.0, f32::NEG_INFINITY] {
        assert_eq!(to_dbfs(silent.to_bits(), &decibels), SILENCE_DBFS);
    }
    assert_eq!(f32::from_bits(to_dbfs(1.0f32.to_bits(), &decibels)), 0.0);
    assert_eq!(f32::from_bits(to_dbfs(0.1f32.to_bits(), &decibels)), -20.0);
    assert!(f32::from_bits(to_dbfs(f32::NAN.to_bits(), &decibels)).is_nan());
}

#[test]
fn analysis_of_a_signal_over_noise() {
    let arithmetic = Arithmetic { rms, mean, decibels, sum, difference };
    let samples = bits(&[0.01, 1.0, -1.0, 1.0, -1.0, 1.0, -1.0, 1.0, -1.0, 0.01]);
    let analysis = analyze_channel(&samples, &arithmetic);
    assert_eq!(f32::from_bits(SIGNAL_MARGIN_DB), 6.0);
    assert!((f32::from_bits(analysis.rms) - 0.80002f32.sqrt()).abs() < 1e-6);
    assert_eq!(f32::from_bits(analysis.peak), 1.0);
    assert_eq!(f32::from_bits(analysis.peak_dbfs), 0.0);
    assert!((f32::from_bits(analysis.rms_dbfs) - -0.96905).abs() < 1e-3);
    assert!((f32::from_bits(analysis.noise_floor_dbfs) - -40.0).abs() < 1e-4);
    assert!((f32::from_bits(analysis.dynamic_range_db) - 40.0).abs() < 1e-4);
    assert!((f32::from_bits(analysis.dc_offset) - 0.002).abs() < 1e-6);
    assert!(analysis.has_signal);
}

#[test]
fn analysis_of_a_steady_level_finds_no_signal() {
    let arithmetic = Arithmetic { rms, mean, decibels, sum, difference };
    let analysis = analyze_channel(&bits(&[0.5; 20]), &arithmetic);
    assert_eq!(f32::from_bits(analysis.rms), 0.5);
    assert_eq!(analysis.rms_dbfs, analysis.noise_floor_dbfs);
    assert_eq!(f32::from_bits(analysis.dynamic_range_db), 0.0);
    assert_eq!(f32::from_bits(analysis.dc_offset), 0.5);
    assert!(!analysis.has_signal);
    let silent = analyze_channel(&bits(&[0.0; 20]), &arithmetic);
    assert_eq!(silent.rms_dbfs, SILENCE_DBFS);
    assert_eq!(silent.noise_floor_dbfs, SILENCE_DBFS);
    assert!(!silent.has_signal);
}

#[test]
fn analysis_of_nothing_is_silence() {
    let arithmetic = Arithmetic { rms, mean, decibels, sum, difference };
    let analysis = analyze_channel(&[], &arithmetic);
    assert_eq!(analysis.rms_dbfs, SILENCE_DBFS);
    assert_eq!(analysis.peak_dbfs, SILENCE_DBFS);
    assert_eq!(analysis.noise_floor_dbfs, SILENCE_DBFS);
    assert_eq!((analysis.rms, analysis.peak, analysis.dynamic_range_db), (0, 0, 0));
    assert_eq!(analysis.dc_offset, 0);
    assert!(!analysis.has_signal);
}

#[test]
fn channels_correlate_over_their_common_part() {
    let pair = |a: &[u32], b: &[u32]| 100 * a[a.len() - 1] + b[b.len() - 1];
    assert_eq!(channel_correlation(&vec![1, 2, 3], &vec![4, 5], &pair), 205);
    assert_eq!(channel_correlation(&vec![1], &vec![4, 5], &pair), 104);
    assert_eq!(channel_correlation(&vec![1, 2], &vec![4, 5], &pair), 205);
    assert_eq!(channel_correlation(&vec![], &vec![4, 5], &pair), 0);
    assert_eq!(channel_correlation(&vec![1], &vec![], &pair), 0);
}

#[test]
fn the_meters_agree() {
    let arithmetic = Arithmetic { rms, mean, decibels, sum, difference };
    let samples = bits(&[0.5, -0.25, 0.125, 1.0, -0.75, 0.0, 0.375]);
    for channels in 1..4u16 {
        let levels = compute_levels(&samples, channels, &rms);
        let left = deinterleave_channel(&samples, 0, channels as usize);
        let right = deinterleave_channel(&samples, (channels > 1) as usize, channels as usize);
        let (l, r) = (compute_channel_level(&left, &rms), compute_channel_level(&right, &rms));
        assert_eq!((levels.rms_left, levels.peak_left), (l.rms, l.peak));
        assert_eq!((levels.rms_right, levels.peak_right), (r.rms, r.peak));
        let analysis = analyze_channel(&left, &arithmetic);
        assert_eq!((analysis.rms, analysis.peak), (l.rms, l.peak));
    }
}

#[test]
fn turning_the_signs_turns_only_the_offset() {
    let arithmetic = Arithmetic { rms, mean, decibels, sum, difference };
    let samples = [0.5f32, -0.25, 0.125, 1.0, -0.75, 0.0, 0.375];
    let turned: Vec<f32> = samples.iter().map(|s| -s).collect();
    let a = analyze_channel(&bits(&samples), &arithmetic);
    let b = analyze_channel(&bits(&turned), &arithmetic);
    assert_eq!(f32::from_bits(b.dc_offset), -f32::from_bits(a.dc_offset));
    assert_eq!((b.rms, b.peak, b.rms_dbfs), (a.rms, a.peak, a.rms_dbfs));
    assert_eq!((b.peak_dbfs, b.noise_floor_dbfs), (a.peak_dbfs, a.noise_floor_dbfs));
    assert_eq!((b.dynamic_range_db, b.has_signal), (a.dynamic_range_db, a.has_signal));
    assert_eq!(quiet_part(&bits(&turned)), quiet_part(&bits(&samples)));
}

#[test]
fn channels_join_over_whole_frames() {
    let (a, b) = (vec![1, 2, 3, 4, 5, 6], vec![7, 8, 9, 10]);
    let all: Vec<u32> = a.iter().chain(&b).copied().collect();
    for channel in 0..3 {
        let mut joined = deinterleave_channel(&a, channel, 3);
        joined.extend(deinterleave_channel(&b, channel, 3));
        assert_eq!(deinterleave_channel(&all, channel, 3), joined);
    }
}
