use websdr::demod::{decimate, discriminator_pairs, Demodulator};

#[test]
fn decimation_keeps_the_first_of_each_step() {
    assert_eq!(decimate(&[0, 1, 2, 3, 4, 5, 6], 3), vec![0, 3, 6]);
    assert_eq!(decimate(&[0, 1, 2, 3, 4, 5], 3), vec![0, 3]);
    assert_eq!(decimate(&[0, 1], 3), vec![0]);
    assert_eq!(decimate::<u8>(&[], 3), Vec::<u8>::new());
    assert_eq!(decimate(&[7, 8], 1), vec![7, 8]);
}

#[test]
fn pairs_lie_six_apart_at_every_54th_sample() {
    let samples: Vec<u32> = (0..200).collect();
    assert_eq!(
        discriminator_pairs(&samples),
        vec![[0, 6], [54, 60], [108, 114], [162, 168]]
    );
}

#[test]
fn a_pair_needs_a_sample_six_beyond_it() {
    let samples: Vec<u32> = (0..13).collect();
    assert_eq!(discriminator_pairs(&samples), vec![[0, 6]]);
    assert_eq!(discriminator_pairs(&samples[..12]), Vec::<[u32; 2]>::new());
    assert_eq!(discriminator_pairs(&samples[..7]), Vec::<[u32; 2]>::new());
    assert_eq!(discriminator_pairs(&samples[..0]), Vec::<[u32; 2]>::new());
}

#[test]
fn a_block_gives_76_audio_samples() {
    let samples: Vec<u32> = (0..4096).collect();
    let pairs = discriminator_pairs(&samples);
    assert_eq!(pairs.len(), 76);
    assert_eq!(pairs[75], [54 * 75, 54 * 75 + 6]);
}

#[test]
fn audio_is_pulled_oldest_first() {
    let mut demodulator = Demodulator::<f32>::new();
    assert!(demodulator.pull_audio(1).is_none());
    let samples: Vec<f32> = (0..4096).map(|x| x as f32).collect();
    demodulator.push_samples(&samples, |[s0, s1]| s1 * 1000.0 + s0);
    assert!(demodulator.pull_audio(77).is_none());
    assert_eq!(demodulator.pull_audio(2), Some(vec![6000.0, 60054.0]));
    assert_eq!(demodulator.pull_audio(1), Some(vec![114108.0]));
    assert_eq!(demodulator.pull_audio(0), Some(vec![]));
    assert_eq!(demodulator.pull_audio(73).unwrap().len(), 73);
    assert!(demodulator.pull_audio(1).is_none());
}

#[test]
fn pushed_audio_waits_behind_older_audio() {
    let mut demodulator = Demodulator::<u32>::new();
    demodulator.push_samples(&(0..13).collect::<Vec<u32>>(), |[s0, s1]| s0 + s1);
    demodulator.push_audio(vec![100, 200]);
    assert_eq!(demodulator.pull_audio(3), Some(vec![6, 100, 200]));
}

#[test]
fn each_push_starts_afresh() {
    let xs: Vec<u32> = (0..100).collect();
    let ys: Vec<u32> = (1000..1070).collect();
    let arg = |[s0, s1]: [u32; 2]| s0 + s1;
    let mut both = Demodulator::<u32>::new();
    both.push_audio(vec![5]);
    both.push_samples(&xs, arg);
    both.push_samples(&ys, arg);
    assert_eq!(both.pull_audio(5), Some(vec![5, 6, 114, 2006, 2114]));
    assert!(both.pull_audio(1).is_none());
}
