//! Settings of the receiver and the samples that it delivers.
use vstd::prelude::*;

verus! {

/// The frequency that the receiver is tuned to at the start, in hertz.
pub const CENTER_FREQUENCY: u32 = 95_000_000;

/// Complex samples per second.
pub const SAMPLE_RATE: usize = 1_200_000;

/// The width of a broadcast channel, in hertz.
pub const CHANNEL_WIDTH: usize = 200_000;

/// Audio samples per second.
pub const AUDIO_RATE: usize = 22_050;

/// The number of samples in one spectrum frame.
pub const FFT_LEN: usize = 4096;

/// One in this many samples is kept for demodulation.
pub const CHANNEL_STEP: usize = SAMPLE_RATE / CHANNEL_WIDTH;

/// One in this many phase steps becomes an audio sample.
pub const AUDIO_STEP: usize = CHANNEL_WIDTH / AUDIO_RATE;

/// The number of audio samples in one message: a fiftieth of a second.
pub const AUDIO_CHUNK: usize = AUDIO_RATE / 10 / 5;

/// One complex sample, in units of 1/128 of full scale.
#[derive(Clone, Copy, Debug, PartialEq, Eq, Structural)]
pub struct IqSample {
    pub re: i32,
    pub im: i32,
}

impl Default for IqSample {
    fn default() -> (sample: IqSample)
        ensures
            sample == (IqSample { re: 0, im: 0 }),
    {
        IqSample { re: 0, im: 0 }
    }
}

/// The sample that the bytes `re` and `im` stand for: the receiver counts from 127.
pub open spec fn sample_of(re: u8, im: u8) -> IqSample {
    IqSample { re: (re - 127) as i32, im: (im - 127) as i32 }
}

/// The samples that a run of bytes holds; an odd byte at the end belongs to none.
pub open spec fn samples_of(bytes: Seq<u8>) -> Seq<IqSample> {
    Seq::new(bytes.len() / 2, |k: int| sample_of(bytes[2 * k], bytes[2 * k + 1]))
}

/// Reads the samples out of the bytes that the receiver delivered.
pub fn decode_samples(bytes: &[u8]) -> (samples: Vec<IqSample>)
    ensures
        samples@ == samples_of(bytes@),
        samples@.len() == bytes@.len() / 2,
        forall|k: int|
            0 <= k < samples@.len() ==> (#[trigger] samples@[k]).re == bytes@[2 * k] - 127
                && samples@[k].im == bytes@[2 * k + 1] - 127,
{
    let count: usize = bytes.len() / 2;
    let mut samples: Vec<IqSample> = Vec::with_capacity(count);
    let mut k: usize = 0;
    while k < count
        invariant
            count == bytes.len() / 2,
            bytes.len() == bytes@.len(),
            k <= count,
            samples@ == samples_of(bytes@).take(k as int),
        decreases count - k,
    {
        let re = bytes[2 * k];
        let im = bytes[2 * k + 1];
        samples.push(IqSample { re: re as i32 - 127, im: im as i32 - 127 });
        k += 1;
    }
    samples
}

/// Reading two deliveries one after the other gives the same samples as reading them as one,
/// as long as the first ends with a whole sample.
pub proof fn law_samples_concatenate(first: Seq<u8>, second: Seq<u8>)
    requires
        first.len() % 2 == 0,
    ensures
        samples_of(first + second) == samples_of(first) + samples_of(second),
{
    let both = first + second;
    assert(both.len() / 2 == first.len() / 2 + second.len() / 2);
    assert forall|k: int| 0 <= k < both.len() / 2 implies #[trigger] samples_of(both)[k] == (
    samples_of(first) + samples_of(second))[k] by {
        if k >= first.len() / 2 {
            let j = k - first.len() as int / 2;
            assert(both[2 * k] == second[2 * j]);
            assert(both[2 * k + 1] == second[2 * j + 1]);
        }
    }
    assert(samples_of(both) =~= samples_of(first) + samples_of(second));
}

/// The rates fit: of the samples, whole steps lead to the width of a channel; of the phase steps,
/// the largest whole step that still gives the audio rate; and a message is a fiftieth of a second.
pub proof fn law_rates_fit()
    ensures
        SAMPLE_RATE == 1_200_000,
        CHANNEL_STEP * CHANNEL_WIDTH == SAMPLE_RATE,
        AUDIO_STEP * AUDIO_RATE <= CHANNEL_WIDTH < (AUDIO_STEP + 1) * AUDIO_RATE,
        CHANNEL_STEP == 6,
        AUDIO_CHUNK * 50 == AUDIO_RATE,
        AUDIO_CHUNK == 441,
{
}

/// The two bytes of a sample are its real and its imaginary part, each 127 above the part's value.
pub proof fn law_sample_parts(re: u8, im: u8)
    ensures
        sample_of(re, im).re + 127 == re,
        sample_of(re, im).im + 127 == im,
{
}

/// Sample `k` comes from the bytes `2 * k` and `2 * k + 1`, the real part first, and there is a
/// sample for each whole pair of bytes.
pub proof fn law_sample_positions(bytes: Seq<u8>, k: int)
    requires
        0 <= k,
    ensures
        k < samples_of(bytes).len() <==> 2 * k + 1 < bytes.len(),
        2 * k + 1 < bytes.len() ==> samples_of(bytes)[k].re + 127 == bytes[2 * k]
            && samples_of(bytes)[k].im + 127 == bytes[2 * k + 1],
{
}

/// Exchanging the two bytes of a sample exchanges its parts.
pub proof fn law_parts_exchange(re: u8, im: u8)
    ensures
        sample_of(im, re).re == sample_of(re, im).im,
        sample_of(im, re).im == sample_of(re, im).re,
{
}

/// Different bytes stand for different samples.
pub proof fn law_samples_distinct(re: u8, im: u8, other_re: u8, other_im: u8)
    ensures
        sample_of(re, im) == sample_of(other_re, other_im) ==> re == other_re && im == other_im,
{
}

} // verus!
