use bytes::Bytes;
use websdr::payload::{audio_frame, encode_pcm, fft_frame, Data};

fn fft_of(data: &Data) -> &Bytes {
    match data {
        Data::Fft(bytes) => bytes,
        Data::Audio(_) => panic!("audio"),
    }
}

fn audio_of(data: &Data) -> &Bytes {
    match data {
        Data::Audio(bytes) => bytes,
        Data::Fft(_) => panic!("spectrum"),
    }
}

#[test]
fn spectrum_data_holds_its_bins() {
    let data = Data::fft(vec![3, 1, 2]);
    assert_eq!(&fft_of(&data)[..], &[3, 1, 2]);
}

#[test]
fn audio_data_holds_little_endian_samples() {
    let data = Data::audio(&[1, -1, 0x1234, i16::MIN, i16::MAX]);
    assert_eq!(
        &audio_of(&data)[..],
        &[1, 0, 0xff, 0xff, 0x34, 0x12, 0x00, 0x80, 0xff, 0x7f]
    );
}

#[test]
fn every_sample_is_encoded_as_std_does() {
    for x in i16::MIN..=i16::MAX {
        assert_eq!(encode_pcm(&[x]), x.to_le_bytes().to_vec());
    }
    assert_eq!(encode_pcm(&[]), Vec::<u8>::new());
}

#[test]
fn a_copy_holds_the_same_data() {
    let spectrum = Data::fft(vec![9, 8]);
    assert_eq!(fft_of(&spectrum.clone()), fft_of(&spectrum));
    let audio = Data::audio(&[5]);
    assert_eq!(audio_of(&audio.clone()), audio_of(&audio));
}

#[test]
fn frames_begin_with_their_kind() {
    let payload = Bytes::from(vec![7, 7, 0]);
    assert_eq!(fft_frame(&payload), vec![0x01, 7, 7, 0]);
    assert_eq!(audio_frame(&payload), vec![0x02, 7, 7, 0]);
    assert_eq!(fft_frame(&Bytes::new()), vec![0x01]);
}

#[test]
fn frames_of_different_data_differ() {
    let payload = Bytes::from(vec![1, 2]);
    let other = Bytes::from(vec![1, 2, 0]);
    assert_ne!(fft_frame(&payload), audio_frame(&payload));
    assert_ne!(fft_frame(&payload), fft_frame(&other));
}
