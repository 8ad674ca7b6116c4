use base64::engine::general_purpose::STANDARD;
use base64::Engine;
use plexus_listen::pcm::{above, encode_samples, from_bytes, magnitude_of, to_bytes};

#[test]
fn magnitude_is_the_absolute_value() {
    for v in [0.0f32, -0.0, 1.5, -1.5, f32::INFINITY, f32::NEG_INFINITY, f32::MIN_POSITIVE] {
        assert_eq!(magnitude_of(v.to_bits()), v.abs().to_bits());
    }
}

#[test]
fn bit_patterns_compare_as_numbers() {
    let values = [
        0.0f32,
        -0.0,
        1.5,
        -1.5,
        2.0,
        -2.0,
        f32::INFINITY,
        f32::NEG_INFINITY,
        f32::MIN_POSITIVE,
        f32::NAN,
        -f32::NAN,
    ];
    for a in values {
        for b in values {
            assert_eq!(above(a.to_bits(), b.to_bits()), a > b);
        }
    }
}

#[test]
fn bytes_are_little_endian() {
    assert_eq!(to_bytes(&[0x0403_0201, 0xFFEE_DDCC]), vec![1, 2, 3, 4, 0xCC, 0xDD, 0xEE, 0xFF]);
    let samples = [1.0f32, -0.25, 3.5e-9];
    let bits: Vec<u32> = samples.iter().map(|s| s.to_bits()).collect();
    let expected: Vec<u8> = samples.iter().flat_map(|s| s.to_le_bytes()).collect();
    assert_eq!(to_bytes(&bits), expected);
    assert_eq!(from_bytes(&expected), bits);
}

#[test]
fn left_over_bytes_are_dropped() {
    assert_eq!(from_bytes(&[1, 0, 0, 0, 9, 9, 9]), vec![1]);
    assert_eq!(from_bytes(&[9, 9, 9]), Vec::<u32>::new());
    assert_eq!(from_bytes(&[]), Vec::<u32>::new());
}

#[test]
fn chunks_in_base64() {
    assert_eq!(encode_samples(&[]), "");
    assert_eq!(encode_samples(&[0]), "AAAAAA==");
    assert_eq!(encode_samples(&[1.0f32.to_bits()]), "AACAPw==");
    assert_eq!(encode_samples(&[1.0f32.to_bits(), 0.5f32.to_bits()]), "AACAPwAAAD8=");
    assert_eq!(encode_samples(&[0xFFFF_FFFF, 0xFBEF_BEFB, 0x0102_0304]), "//////u+7/sEAwIB");
}

#[test]
fn a_listener_decodes_what_was_captured() {
    for len in 0..50usize {
        let samples: Vec<u32> = (0..len as u32).map(|i| i.wrapping_mul(0x9E37_79B9)).collect();
        let text = encode_samples(&samples);
        assert_eq!(text.len(), (4 * len + 2) / 3 * 4);
        let bytes = STANDARD.decode(&text).unwrap();
        assert_eq!(from_bytes(&bytes), samples);
    }
}
