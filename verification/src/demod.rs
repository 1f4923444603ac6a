//! Frequency demodulation: from complex samples to audio.
use vstd::arithmetic::div_mod::lemma_basic_div;
use vstd::arithmetic::div_mod::lemma_fundamental_div_mod;
use vstd::arithmetic::div_mod::lemma_fundamental_div_mod_converse;
use vstd::prelude::*;
use vstd::std_specs::iter::IteratorSpec;

use crate::iter::IterExt;
use crate::iter::followed_windows;
use crate::radio::AUDIO_STEP;
use crate::radio::CHANNEL_STEP;
use crate::radio::FFT_LEN;

verus! {

/// Every `step`th item of `s`, beginning with the first.
pub open spec fn decimated<T>(s: Seq<T>, step: nat) -> Seq<T>
    recommends
        step > 0,
{
    Seq::new((s.len() + step - 1) as nat / step, |k: int| s[k * step])
}

/// The pairs of samples whose phase steps become audio.
pub open spec fn phase_pairs<S>(samples: Seq<S>) -> Seq<[S; 2]> {
    decimated(
        followed_windows(decimated(samples, CHANNEL_STEP as nat), 2),
        AUDIO_STEP as nat,
    ).map_values(|window: Seq<S>| [window[0], window[1]])
}

/// `after` is the audio `before` with the audio of `samples` behind it: what `arg` gives for each
/// pair, in order.
pub open spec fn pushed<S, A, F: Fn([S; 2]) -> A>(
    before: Seq<A>,
    samples: Seq<S>,
    arg: F,
    after: Seq<A>,
) -> bool {
    &&& after.len() == before.len() + phase_pairs(samples).len()
    &&& after.take(before.len() as int) == before
    &&& forall|j: int|
        0 <= j < phase_pairs(samples).len() ==> call_ensures(
            arg,
            (#[trigger] phase_pairs(samples)[j],),
            after[before.len() + j],
        )
}

/// Every `step`th of the samples, beginning with the first.
pub fn decimate<S: Copy>(samples: &[S], step: usize) -> (kept: Vec<S>)
    requires
        step > 0,
    ensures
        kept@ == decimated(samples@, step as nat),
        samples@.len() <= kept@.len() * step < samples@.len() + step,
        forall|k: int| 0 <= k < kept@.len() ==> #[trigger] kept@[k] == samples@[k * step],
{
    let mut kept: Vec<S> = Vec::new();
    let mut i: usize = 0;
    proof {
        lemma_decimated_empty(samples@.take(0), step as nat);
    }
    while i < samples.len()
        invariant
            step > 0,
            i <= samples@.len(),
            kept@ == decimated(samples@.take(i as int), step as nat),
        decreases samples.len() - i,
    {
        proof {
            lemma_decimated_push(samples@.take(i as int), samples@[i as int], step as nat);
            assert(samples@.take(i as int).push(samples@[i as int]) =~= samples@.take(i + 1));
        }
        if i % step == 0 {
            kept.push(samples[i]);
        }
        i += 1;
    }
    proof {
        assert(samples@.take(i as int) =~= samples@);
        lemma_decimated_len(samples@, step as nat);
    }
    kept
}

/// The pairs of samples whose phase steps become audio.
pub fn discriminator_pairs<S: Copy + Default>(samples: &[S]) -> (pairs: Vec<[S; 2]>)
    ensures
        pairs@ == phase_pairs(samples@),
        forall|j: int|
            0 <= j < pairs@.len() ==> 54 * j + 12 < samples@.len() && #[trigger] pairs@[j] == [
                samples@[54 * j],
                samples@[54 * j + 6],
            ],
        samples@.len() <= 54 * pairs@.len() + 12,
{
    let channel = decimate(samples, CHANNEL_STEP);
    let ghost all = followed_windows(channel@, 2);
    let channel_len: usize = channel.len();
    let mut windows = channel.into_iter().array_windows::<2>();
    let mut pairs: Vec<[S; 2]> = Vec::new();
    let mut seen: usize = 0;
    proof {
        lemma_decimated_empty(all.take(0), AUDIO_STEP as nat);
        if !windows.is_empty() {
            assert(windows.window() + windows.source().remaining() =~= channel@);
        }
        assert(all.skip(0) =~= all);
        assert(pairs@.map_values(|pair: [S; 2]| pair@) =~= Seq::<Seq<S>>::empty());
    }
    loop
        invariant_except_break
            !windows.is_empty() ==> all.skip(seen as int) == followed_windows(
                windows.window() + windows.source().remaining(),
                2,
            ),
        invariant
            all.len() <= channel_len,
            seen <= all.len(),
            windows.source().obeys_prophetic_iter_laws(),
            windows.source().decrease() is Some,
            windows.is_empty() ==> all.len() == 0,
            pairs@.map_values(|pair: [S; 2]| pair@) == decimated(
                all.take(seen as int),
                AUDIO_STEP as nat,
            ),
        ensures
            seen == all.len(),
        decreases windows.source().decrease()->0,
    {
        match windows.next() {
            Some(pair) => {
                proof {
                    assert(pair@ == all.skip(seen as int)[0]);
                    lemma_decimated_push(
                        all.take(seen as int),
                        all[seen as int],
                        AUDIO_STEP as nat,
                    );
                    assert(all.take(seen as int).push(all[seen as int]) =~= all.take(seen + 1));
                    assert(all.skip(seen as int).drop_first() =~= all.skip(seen + 1));
                }
                let ghost before = pairs@;
                if seen % AUDIO_STEP == 0 {
                    pairs.push(pair);
                    assert(pairs@.map_values(|pair: [S; 2]| pair@) =~= before.map_values(
                        |pair: [S; 2]| pair@,
                    ).push(pair@));
                }
                seen += 1;
            },
            None => {
                break;
            },
        }
    }
    proof {
        assert(all.take(seen as int) =~= all);
        let kept = decimated(all, AUDIO_STEP as nat);
        assert forall|j: int| 0 <= j < pairs@.len() implies pairs@[j] == #[trigger] phase_pairs(
            samples@,
        )[j] by {
            assert(pairs@[j]@ == kept[j]);
            assert(pairs@[j] =~= [kept[j][0], kept[j][1]]);
        }
        assert(pairs@ =~= phase_pairs(samples@));
        assert forall|j: int| 0 <= j < pairs@.len() implies 54 * j + 12 < samples@.len()
            && #[trigger] pairs@[j] == [samples@[54 * j], samples@[54 * j + 6]] by {
            law_phase_pair_positions(samples@, j);
        }
        law_phase_pairs_complete(samples@, pairs@.len() as int);
    }
    pairs
}

/// Turns samples into audio and holds the audio until it is called for.
pub struct Demodulator<A> {
    audio_samples: Vec<A>,
}

impl<A> View for Demodulator<A> {
    type V = Seq<A>;

    /// The audio that is held, oldest first.
    closed spec fn view(&self) -> Seq<A> {
        self.audio_samples@
    }
}

impl<A> Demodulator<A> {
    /// Holds no audio yet.
    pub fn new() -> (demodulator: Self)
        ensures
            demodulator@ == Seq::<A>::empty(),
    {
        Demodulator { audio_samples: Vec::new() }
    }

    /// Demodulates `samples`; `arg` gives the audio sample for the phase step between two
    /// neighbouring samples.
    pub fn push_samples<S: Copy + Default, F: Fn([S; 2]) -> A>(&mut self, samples: &[S], arg: F)
        requires
            forall|j: int|
                0 <= j < phase_pairs(samples@).len() ==> call_requires(
                    arg,
                    (#[trigger] phase_pairs(samples@)[j],),
                ),
        ensures
            pushed(old(self)@, samples@, arg, final(self)@),
    {
        let pairs = discriminator_pairs(samples);
        let mut j: usize = 0;
        while j < pairs.len()
            invariant
                pairs@ == phase_pairs(samples@),
                j <= pairs@.len(),
                self@.len() == old(self)@.len() + j,
                self@.take(old(self)@.len() as int) == old(self)@,
                forall|i: int|
                    0 <= i < phase_pairs(samples@).len() ==> call_requires(
                        arg,
                        (#[trigger] phase_pairs(samples@)[i],),
                    ),
                forall|i: int|
                    0 <= i < j ==> call_ensures(
                        arg,
                        (#[trigger] phase_pairs(samples@)[i],),
                        self@[old(self)@.len() + i],
                    ),
            decreases pairs.len() - j,
        {
            self.audio_samples.push(arg(pairs[j]));
            j += 1;
        }
    }

    /// Adds audio that has been demodulated elsewhere.
    pub fn push_audio(&mut self, audio: Vec<A>)
        ensures
            final(self)@ == old(self)@ + audio@,
    {
        let mut audio = audio;
        self.audio_samples.append(&mut audio);
    }

    /// Hands out the oldest `n` audio samples, or nothing while there are fewer.
    pub fn pull_audio(&mut self, n: usize) -> (audio: Option<Vec<A>>)
        ensures
            match audio {
                Some(pulled) => {
                    &&& old(self)@.len() >= n
                    &&& pulled@ == old(self)@.take(n as int)
                    &&& final(self)@ == old(self)@.skip(n as int)
                },
                None => old(self)@.len() < n && final(self)@ == old(self)@,
            },
    {
        if self.audio_samples.len() < n {
            return None;
        }
        let mut pulled = self.audio_samples.split_off(n);
        std::mem::swap(&mut pulled, &mut self.audio_samples);
        Some(pulled)
    }
}

/// The number of audio samples that `len` samples give.
pub open spec fn audio_count(len: nat) -> nat {
    let channel = (len + 5) / 6;
    if channel > 2 {
        (channel - 2 + 8) as nat / 9
    } else {
        0
    }
}

/// The number of audio samples depends on the number of samples alone.
pub proof fn law_audio_count<S>(samples: Seq<S>)
    ensures
        phase_pairs(samples).len() == audio_count(samples.len()),
{
    let channel = decimated(samples, CHANNEL_STEP as nat);
    let windows = followed_windows(channel, 2);
    assert(CHANNEL_STEP == 6 && AUDIO_STEP == 9);
    assert(channel.len() == (samples.len() + 5) / 6);
    assert(windows.len() == if channel.len() > 2 {
        channel.len() - 2
    } else {
        0
    });
    assert(decimated(windows, AUDIO_STEP as nat).len() == (windows.len() + 8) / 9);
}

/// Audio sample `j` comes from the samples at `54 * j` and six further on, and from no others;
/// a pair counts only while there is a sample six beyond it.
pub proof fn law_phase_pair_positions<S>(samples: Seq<S>, j: int)
    requires
        0 <= j < phase_pairs(samples).len(),
    ensures
        54 * j + 12 < samples.len(),
        phase_pairs(samples)[j] == [samples[54 * j], samples[54 * j + 6]],
{
    let channel = decimated(samples, CHANNEL_STEP as nat);
    let windows = followed_windows(channel, 2);
    lemma_decimated_index(windows, AUDIO_STEP as nat, j);
    lemma_decimated_index(samples, CHANNEL_STEP as nat, 9 * j + 2);
    let window = windows[9 * j];
    assert(phase_pairs(samples)[j] == [window[0], window[1]]);
    assert(window[0] == samples[54 * j]);
    assert(window[1] == samples[54 * j + 6]);
}

/// There is a pair for every fifty-fourth sample that has another one twelve further on, and for no
/// others.
pub proof fn law_phase_pairs_complete<S>(samples: Seq<S>, j: int)
    requires
        0 <= j,
    ensures
        j < phase_pairs(samples).len() <==> 54 * j + 12 < samples.len(),
{
    law_audio_count(samples);
}

/// Decimation by `step` keeps the item at `k * step` for every `k`, and no others.
pub proof fn law_decimated_positions<T>(s: Seq<T>, step: nat, k: int)
    requires
        step > 0,
        0 <= k,
    ensures
        k < decimated(s, step).len() <==> k * step < s.len(),
        k * step < s.len() ==> decimated(s, step)[k] == s[k * step],
{
    lemma_decimated_len(s, step);
    let kept = decimated(s, step).len() as int;
    assert(k < kept <==> k * step < s.len()) by (nonlinear_arith)
        requires
            step > 0,
            0 <= k,
            0 <= kept,
            s.len() <= kept * step < s.len() + step,
    ;
}

/// Pushing samples keeps the audio that is held and puts behind it, for every fifty-fourth sample
/// that has another one twelve further on, what `arg` gives for it and the sample six further on.
pub proof fn law_push_appends<S, A, F: Fn([S; 2]) -> A>(
    before: Seq<A>,
    samples: Seq<S>,
    arg: F,
    after: Seq<A>,
    j: int,
)
    requires
        pushed(before, samples, arg, after),
        0 <= j,
    ensures
        before.is_prefix_of(after),
        before.len() + j < after.len() <==> 54 * j + 12 < samples.len(),
        54 * j + 12 < samples.len() ==> call_ensures(
            arg,
            ([samples[54 * j], samples[54 * j + 6]],),
            after[before.len() + j],
        ),
{
    law_phase_pairs_complete(samples, j);
    if 54 * j + 12 < samples.len() {
        law_phase_pair_positions(samples, j);
        assert(call_ensures(arg, (phase_pairs(samples)[j],), after[before.len() + j]));
    }
}

/// A full spectrum block gives 76 audio samples.
pub proof fn law_block_audio_count<S>(samples: Seq<S>)
    requires
        samples.len() == FFT_LEN,
    ensures
        phase_pairs(samples).len() == 76,
{
    law_audio_count(samples);
}

/// Each push starts afresh: pushing `xs` and then `ys` adds what each of them gives to a new
/// demodulator, one after the other; no audio sample combines samples of both. The phase step must
/// depend on the pair alone.
pub proof fn law_pushes_independent<S, A, F: Fn([S; 2]) -> A>(
    arg: F,
    xs: Seq<S>,
    ys: Seq<S>,
    from_xs: Seq<A>,
    from_ys: Seq<A>,
    before: Seq<A>,
    between: Seq<A>,
    after: Seq<A>,
)
    requires
        forall|pair: [S; 2], a: A, b: A| #[trigger]
            call_ensures(arg, (pair,), a) && #[trigger] call_ensures(arg, (pair,), b) ==> a == b,
        pushed(Seq::empty(), xs, arg, from_xs),
        pushed(Seq::empty(), ys, arg, from_ys),
        pushed(before, xs, arg, between),
        pushed(between, ys, arg, after),
    ensures
        after == before + from_xs + from_ys,
{
    lemma_pushed_appends(arg, xs, from_xs, before, between);
    lemma_pushed_appends(arg, ys, from_ys, between, after);
}

proof fn lemma_pushed_appends<S, A, F: Fn([S; 2]) -> A>(
    arg: F,
    samples: Seq<S>,
    fresh: Seq<A>,
    before: Seq<A>,
    after: Seq<A>,
)
    requires
        forall|pair: [S; 2], a: A, b: A| #[trigger]
            call_ensures(arg, (pair,), a) && #[trigger] call_ensures(arg, (pair,), b) ==> a == b,
        pushed(Seq::empty(), samples, arg, fresh),
        pushed(before, samples, arg, after),
    ensures
        after == before + fresh,
{
    let pairs = phase_pairs(samples);
    assert forall|i: int| 0 <= i < after.len() implies #[trigger] after[i] == (before + fresh)[i] by {
        if i < before.len() {
            assert(after.take(before.len() as int)[i] == before[i]);
        } else {
            let j = i - before.len();
            assert(call_ensures(arg, (pairs[j],), after[before.len() + j]));
            assert(call_ensures(arg, (pairs[j],), fresh[0 + j]));
        }
    }
    assert(after =~= before + fresh);
}

proof fn lemma_decimated_empty<T>(s: Seq<T>, step: nat)
    requires
        step > 0,
        s.len() == 0,
    ensures
        decimated(s, step) == Seq::<T>::empty(),
{
    lemma_basic_div(step - 1, step as int);
    assert(decimated(s, step) =~= Seq::<T>::empty());
}

proof fn lemma_decimated_len<T>(s: Seq<T>, step: nat)
    requires
        step > 0,
    ensures
        s.len() <= decimated(s, step).len() * step < s.len() + step,
{
    let d = step as int;
    let total = s.len() + d - 1;
    lemma_fundamental_div_mod(total, d);
    assert(d * (total / d) == (total / d) * d) by (nonlinear_arith);
    vstd::arithmetic::div_mod::lemma_div_pos_is_pos(total, d);
}

proof fn lemma_decimated_push<T>(s: Seq<T>, item: T, step: nat)
    requires
        step > 0,
    ensures
        decimated(s.push(item), step) == if s.len() % step == 0 {
            decimated(s, step).push(item)
        } else {
            decimated(s, step)
        },
{
    let len = s.len() as int;
    let d = step as int;
    let q = len / d;
    let r = len % d;
    lemma_fundamental_div_mod(len, d);
    assert(d * q == q * d && (q + 1) * d == q * d + d) by (nonlinear_arith);
    if r == 0 {
        lemma_fundamental_div_mod_converse(len + d - 1, d, q, d - 1);
        lemma_fundamental_div_mod_converse(len + d, d, q + 1, 0);
        assert(decimated(s.push(item), step).last() == item);
    } else {
        lemma_fundamental_div_mod_converse(len + d - 1, d, q + 1, r - 1);
        lemma_fundamental_div_mod_converse(len + d, d, q + 1, r);
    }
    let count = (len + d - 1) / d;
    assert forall|k: int| 0 <= k < count implies #[trigger] decimated(s.push(item), step)[k]
        == decimated(s, step)[k] by {
        lemma_decimated_index(s, step, k);
    }
    if r == 0 {
        assert(decimated(s.push(item), step) =~= decimated(s, step).push(item));
    } else {
        assert(decimated(s.push(item), step) =~= decimated(s, step));
    }
}

proof fn lemma_decimated_index<T>(s: Seq<T>, step: nat, k: int)
    requires
        step > 0,
        0 <= k < decimated(s, step).len(),
    ensures
        0 <= k * step < s.len(),
{
    let d = step as int;
    lemma_fundamental_div_mod(s.len() + d - 1, d);
    assert(0 <= k * d < s.len()) by (nonlinear_arith)
        requires
            d > 0,
            0 <= k <= (s.len() + d - 1) / d - 1,
            s.len() + d - 1 == d * ((s.len() + d - 1) / d) + (s.len() + d - 1) % d,
            (s.len() + d - 1) % d >= 0,
    ;
}

} // verus!
