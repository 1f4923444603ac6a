//! What clients receive: spectrum and audio data, and the frames that carry them.
use bytes::Bytes;
use vstd::prelude::*;

verus! {

/// The reference-counted byte buffer of the `bytes` crate.
#[verifier::external_type_specification]
#[verifier::external_body]
pub struct ExBytes(Bytes);

/// The bytes that a buffer holds, in order.
pub uninterp spec fn contents(buffer: Bytes) -> Seq<u8>;

/// `<Bytes as From<Vec<u8>>>::from`: the buffer holds the bytes of the vector.
#[verifier::external_body]
fn bytes_from_vec(v: Vec<u8>) -> (buffer: Bytes)
    ensures
        contents(buffer) == v@,
{
    Bytes::from(v)
}

/// `<Bytes as AsRef<[u8]>>::as_ref`: the slice shows the bytes that the buffer holds.
#[verifier::external_body]
fn bytes_as_slice(buffer: &Bytes) -> (slice: &[u8])
    ensures
        slice@ == contents(*buffer),
{
    buffer.as_ref()
}

/// `<Bytes as Clone>::clone`: the new buffer holds the same bytes.
#[verifier::external_body]
fn bytes_clone(buffer: &Bytes) -> (copy: Bytes)
    ensures
        contents(copy) == contents(*buffer),
{
    buffer.clone()
}

/// The first byte of a frame that carries a spectrum.
pub const FFT_TAG: u8 = 0x01;

/// The first byte of a frame that carries audio.
pub const AUDIO_TAG: u8 = 0x02;

/// What the receiver sends to every client.
pub enum Data {
    /// One spectrum: a byte for each frequency bin.
    Fft(Bytes),
    /// A run of audio: 16-bit samples, the low byte first.
    Audio(Bytes),
}

/// A [`Data`] as a value.
pub enum DataView {
    Fft(Seq<u8>),
    Audio(Seq<u8>),
}

impl View for Data {
    type V = DataView;

    open spec fn view(&self) -> DataView {
        match self {
            Data::Fft(buffer) => DataView::Fft(contents(*buffer)),
            Data::Audio(buffer) => DataView::Audio(contents(*buffer)),
        }
    }
}

impl DataView {
    /// The frame in which the data travels: a byte for its kind, then the data.
    pub open spec fn frame(self) -> Seq<u8> {
        match self {
            DataView::Fft(payload) => seq![FFT_TAG] + payload,
            DataView::Audio(payload) => seq![AUDIO_TAG] + payload,
        }
    }
}

/// The two bytes of `x` in two's complement, the low byte first.
pub open spec fn le_bytes(x: i16) -> Seq<u8> {
    seq![(x as int % 256) as u8, (x as int / 256 % 256) as u8]
}

/// The bytes of a run of audio samples.
pub open spec fn pcm_bytes(pcm: Seq<i16>) -> Seq<u8> {
    Seq::new(2 * pcm.len(), |i: int| le_bytes(pcm[i / 2])[i % 2])
}

impl Clone for Data {
    fn clone(&self) -> (copy: Self)
        ensures
            copy@ == self@,
            copy is Fft <==> self is Fft,
    {
        match self {
            Data::Fft(buffer) => Data::Fft(bytes_clone(buffer)),
            Data::Audio(buffer) => Data::Audio(bytes_clone(buffer)),
        }
    }
}

impl Data {
    /// Spectrum data with the given bins.
    pub fn fft(bins: Vec<u8>) -> (data: Data)
        ensures
            data@ == DataView::Fft(bins@),
            data matches Data::Fft(buffer) && contents(buffer) == bins@,
    {
        Data::Fft(bytes_from_vec(bins))
    }

    /// Audio data with the given samples.
    pub fn audio(pcm: &[i16]) -> (data: Data)
        ensures
            data@ == DataView::Audio(pcm_bytes(pcm@)),
            data matches Data::Audio(buffer) && contents(buffer) == pcm_bytes(pcm@),
    {
        Data::Audio(bytes_from_vec(encode_pcm(pcm)))
    }
}

/// Writes audio samples as bytes.
pub fn encode_pcm(pcm: &[i16]) -> (encoded: Vec<u8>)
    ensures
        encoded@ == pcm_bytes(pcm@),
        encoded@.len() == 2 * pcm@.len(),
        forall|k: int|
            0 <= k < pcm@.len() ==> #[trigger] pcm@[k] == encoded@[2 * k] + 256 * (if encoded@[2 * k
                + 1] >= 128 {
                encoded@[2 * k + 1] - 256
            } else {
                encoded@[2 * k + 1] as int
            }),
{
    let mut encoded: Vec<u8> = Vec::new();
    let mut k: usize = 0;
    while k < pcm.len()
        invariant
            k <= pcm@.len(),
            encoded@ == pcm_bytes(pcm@.take(k as int)),
        decreases pcm.len() - k,
    {
        let x: i32 = pcm[k] as i32;
        let word: i32 = if x < 0 {
            x + 65536
        } else {
            x
        };
        encoded.push((word % 256) as u8);
        encoded.push((word / 256) as u8);
        assert(encoded@ =~= pcm_bytes(pcm@.take(k + 1)));
        k += 1;
    }
    proof {
        assert(pcm@.take(k as int) =~= pcm@);
        assert forall|k: int| 0 <= k < pcm@.len() implies #[trigger] pcm@[k] == encoded@[2 * k] + 256
            * (if encoded@[2 * k + 1] >= 128 {
            encoded@[2 * k + 1] - 256
        } else {
            encoded@[2 * k + 1] as int
        }) by {
            law_pcm_layout(pcm@, k);
        }
    }
    encoded
}

/// The frame for spectrum data.
pub fn fft_frame(fft: &Bytes) -> (frame: Vec<u8>)
    ensures
        frame@ == DataView::Fft(contents(*fft)).frame(),
        frame@ == seq![0x01u8] + contents(*fft),
{
    tagged(FFT_TAG, fft)
}

/// The frame for audio data.
pub fn audio_frame(audio: &Bytes) -> (frame: Vec<u8>)
    ensures
        frame@ == DataView::Audio(contents(*audio)).frame(),
        frame@ == seq![0x02u8] + contents(*audio),
{
    tagged(AUDIO_TAG, audio)
}

fn tagged(tag: u8, payload: &Bytes) -> (frame: Vec<u8>)
    ensures
        frame@ == seq![tag] + contents(*payload),
{
    let mut frame: Vec<u8> = Vec::new();
    frame.push(tag);
    frame.extend_from_slice(bytes_as_slice(payload));
    assert(frame@ =~= seq![tag] + contents(*payload));
    frame
}

/// A piece of data is a spectrum or audio, and holds the bytes of its buffer.
pub proof fn law_data_value(data: Data)
    ensures
        match data@ {
            DataView::Fft(bins) => data matches Data::Fft(buffer) && contents(buffer) == bins,
            DataView::Audio(bytes) => data matches Data::Audio(buffer) && contents(buffer) == bytes,
        },
{
}

/// A frame is its payload behind one byte, which is 1 for a spectrum and 2 for audio.
pub proof fn law_frame_layout(payload: Seq<u8>)
    ensures
        DataView::Fft(payload).frame().len() == payload.len() + 1,
        DataView::Fft(payload).frame()[0] == 1,
        DataView::Fft(payload).frame().skip(1) == payload,
        DataView::Audio(payload).frame().len() == payload.len() + 1,
        DataView::Audio(payload).frame()[0] == 2,
        DataView::Audio(payload).frame().skip(1) == payload,
{
    assert(DataView::Fft(payload).frame().skip(1) =~= payload);
    assert(DataView::Audio(payload).frame().skip(1) =~= payload);
}

/// A client can tell from a frame what was sent: different data never share a frame.
pub proof fn law_frames_distinct(a: DataView, b: DataView)
    ensures
        a.frame() == b.frame() ==> a == b,
{
    if a.frame() == b.frame() {
        assert(a.frame()[0] == b.frame()[0]);
        match (a, b) {
            (DataView::Fft(p), DataView::Fft(q)) => {
                assert(a.frame().skip(1) =~= p);
                assert(b.frame().skip(1) =~= q);
            },
            (DataView::Audio(p), DataView::Audio(q)) => {
                assert(a.frame().skip(1) =~= p);
                assert(b.frame().skip(1) =~= q);
            },
            _ => {},
        }
    }
}

/// An audio sample can be read back from its two bytes: the high byte carries the sign.
pub proof fn law_sample_recoverable(x: i16)
    ensures
        x == le_bytes(x)[0] + 256 * (if le_bytes(x)[1] >= 128 {
            le_bytes(x)[1] - 256
        } else {
            le_bytes(x)[1] as int
        }),
{
}

/// Sample `k` of a run of audio is read back from the bytes `2 * k` and `2 * k + 1`, the low byte
/// first; the high byte carries the sign. There are no other bytes.
pub proof fn law_pcm_layout(pcm: Seq<i16>, k: int)
    ensures
        pcm_bytes(pcm).len() == 2 * pcm.len(),
        0 <= k < pcm.len() ==> pcm[k] == pcm_bytes(pcm)[2 * k] + 256 * (if pcm_bytes(pcm)[2 * k + 1]
            >= 128 {
            pcm_bytes(pcm)[2 * k + 1] - 256
        } else {
            pcm_bytes(pcm)[2 * k + 1] as int
        }),
{
    if 0 <= k < pcm.len() {
        assert(pcm_bytes(pcm)[2 * k] == le_bytes(pcm[k])[0]);
        assert(pcm_bytes(pcm)[2 * k + 1] == le_bytes(pcm[k])[1]);
        law_sample_recoverable(pcm[k]);
    }
}

/// Audio bytes determine the audio samples.
pub proof fn law_pcm_recoverable(a: Seq<i16>, b: Seq<i16>)
    requires
        pcm_bytes(a) == pcm_bytes(b),
    ensures
        a == b,
{
    assert(pcm_bytes(a).len() == 2 * a.len());
    assert(pcm_bytes(b).len() == 2 * b.len());
    assert forall|k: int| 0 <= k < a.len() implies a[k] == b[k] by {
        assert(pcm_bytes(a)[2 * k] == le_bytes(a[k])[0]);
        assert(pcm_bytes(b)[2 * k] == le_bytes(b[k])[0]);
        assert(pcm_bytes(a)[2 * k + 1] == le_bytes(a[k])[1]);
        assert(pcm_bytes(b)[2 * k + 1] == le_bytes(b[k])[1]);
        law_sample_recoverable(a[k]);
        law_sample_recoverable(b[k]);
    }
    assert(a =~= b);
}

} // verus!
