use websdr::radio::{
    decode_samples, IqSample, AUDIO_CHUNK, AUDIO_STEP, CENTER_FREQUENCY, CHANNEL_STEP, FFT_LEN,
};

fn iq(re: i32, im: i32) -> IqSample {
    IqSample { re, im }
}

#[test]
fn settings() {
    assert_eq!(CENTER_FREQUENCY, 95_000_000);
    assert_eq!(FFT_LEN, 4096);
    assert_eq!(CHANNEL_STEP, 6);
    assert_eq!(AUDIO_STEP, 9);
    assert_eq!(AUDIO_CHUNK, 441);
}

#[test]
fn bytes_count_from_127() {
    assert_eq!(
        decode_samples(&[127, 127, 0, 255, 128, 126]),
        vec![iq(0, 0), iq(-127, 128), iq(1, -1)]
    );
}

#[test]
fn odd_byte_is_dropped() {
    assert_eq!(decode_samples(&[1, 2, 3]), vec![iq(-126, -125)]);
    assert_eq!(decode_samples(&[9]), vec![]);
    assert_eq!(decode_samples(&[]), vec![]);
}

#[test]
fn deliveries_concatenate() {
    let first: Vec<u8> = (0..10).collect();
    let second: Vec<u8> = (10..17).collect();
    let both: Vec<u8> = (0..17).collect();
    let mut apart = decode_samples(&first);
    apart.extend(decode_samples(&second));
    assert_eq!(decode_samples(&both), apart);
}

#[test]
fn different_bytes_give_different_samples() {
    let mut seen = Vec::new();
    for byte in 0..=255u8 {
        let sample = decode_samples(&[byte, 255 - byte])[0];
        assert!(!seen.contains(&sample));
        seen.push(sample);
    }
}

#[test]
fn the_default_sample_is_zero() {
    assert_eq!(IqSample::default(), iq(0, 0));
}
