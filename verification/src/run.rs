//! What holds of the receiver's work cycle over any number of steps.
use async_channel::Receiver;
use vstd::prelude::*;

use crate::demod::law_block_audio_count;
use crate::demod::law_phase_pair_positions;
use crate::demod::phase_pairs;
use crate::payload::DataView;
use crate::payload::law_pcm_layout;
use crate::payload::le_bytes;
use crate::payload::pcm_bytes;
use crate::radio::AUDIO_CHUNK;
use crate::radio::FFT_LEN;
use crate::radio::IqSample;
use crate::radio::samples_of;
use crate::session::SdrCommand;
use crate::session::newest_frequency;
use crate::worker::Awaiting;
use crate::worker::SdrWorker;
use crate::worker::WorkerActionView;
use crate::worker::WorkerEventView;
use crate::worker::WorkerView;
use crate::worker::polled;
use crate::worker::stepped;

verus! {

/// Where the cycle arrives from `start` when it is told `events` in turn, and what it wants done
/// on the way; nothing if one of them is not what it waits for.
pub open spec fn run<A>(start: WorkerView<A>, events: Seq<WorkerEventView<A>>) -> Option<
    (WorkerView<A>, Seq<WorkerActionView<A>>),
>
    decreases events.len(),
{
    if events.len() == 0 {
        Some((start, Seq::empty()))
    } else {
        match run(start, events.drop_last()) {
            Some((state, actions)) => match state.told(events.last()) {
                Some((next, action)) => Some((next, actions.push(action))),
                None => None,
            },
            None => None,
        }
    }
}

/// All samples that were read.
pub open spec fn samples_read<A>(events: Seq<WorkerEventView<A>>) -> Seq<IqSample>
    decreases events.len(),
{
    if events.len() == 0 {
        Seq::empty()
    } else {
        samples_read(events.drop_last()) + match events.last() {
            WorkerEventView::Bytes(bytes) => samples_of(bytes),
            _ => Seq::empty(),
        }
    }
}

/// All samples that were handed out for analysis.
pub open spec fn samples_analysed<A>(actions: Seq<WorkerActionView<A>>) -> Seq<IqSample>
    decreases actions.len(),
{
    if actions.len() == 0 {
        Seq::empty()
    } else {
        samples_analysed(actions.drop_last()) + match actions.last() {
            WorkerActionView::Analyse { block, .. } => block,
            _ => Seq::empty(),
        }
    }
}

/// All audio that came in.
pub open spec fn audio_received<A>(events: Seq<WorkerEventView<A>>) -> Seq<A>
    decreases events.len(),
{
    if events.len() == 0 {
        Seq::empty()
    } else {
        audio_received(events.drop_last()) + match events.last() {
            WorkerEventView::Analysed { audio, .. } => audio,
            _ => Seq::empty(),
        }
    }
}

/// All audio that was handed out for sending.
pub open spec fn audio_handed_out<A>(actions: Seq<WorkerActionView<A>>) -> Seq<A>
    decreases actions.len(),
{
    if actions.len() == 0 {
        Seq::empty()
    } else {
        audio_handed_out(actions.drop_last()) + match actions.last() {
            WorkerActionView::Encode(audio) => audio,
            _ => Seq::empty(),
        }
    }
}

/// The data that came out of analysis and encoding, in order.
pub open spec fn data_produced<A>(events: Seq<WorkerEventView<A>>) -> Seq<DataView>
    decreases events.len(),
{
    if events.len() == 0 {
        Seq::empty()
    } else {
        let before = data_produced(events.drop_last());
        match events.last() {
            WorkerEventView::Analysed { bins, .. } => before.push(DataView::Fft(bins)),
            WorkerEventView::Encoded(pcm) => before.push(DataView::Audio(pcm_bytes(pcm))),
            _ => before,
        }
    }
}

/// The data that was sent to all clients, in order.
pub open spec fn data_sent<A>(actions: Seq<WorkerActionView<A>>) -> Seq<DataView>
    decreases actions.len(),
{
    if actions.len() == 0 {
        Seq::empty()
    } else {
        let before = data_sent(actions.drop_last());
        match actions.last() {
            WorkerActionView::Broadcast(data) => before.push(data),
            _ => before,
        }
    }
}

/// `event` answers `action`.
pub open spec fn answers<A>(event: WorkerEventView<A>, action: WorkerActionView<A>) -> bool {
    match action {
        WorkerActionView::CheckTerminated => event is Terminated,
        WorkerActionView::Analyse { .. } => event is Analysed,
        WorkerActionView::Broadcast(_) => event is Sent,
        WorkerActionView::Encode(_) => event is Encoded,
        WorkerActionView::PollCommand => event is Command,
        WorkerActionView::Retune(_) => event is Retuned,
        WorkerActionView::Read => event is Bytes,
        WorkerActionView::Close => false,
    }
}

/// The backlog fits the place in the cycle: no full block is left once audio is sent, and no full
/// audio message either once commands are looked for.
pub open spec fn backlog_fits<A>(state: WorkerView<A>) -> bool {
    &&& (state.awaiting is Encoding || state.awaiting is AudioSent || state.awaiting is Command
        || state.awaiting is Retuning || state.awaiting is Bytes) ==> state.incoming.len() < FFT_LEN
    &&& (state.awaiting is Command || state.awaiting is Retuning || state.awaiting is Bytes)
        ==> state.audio.len() < AUDIO_CHUNK
}

/// Every sample that is read is analysed once, in order, or is still waiting: none is lost, none
/// is repeated.
pub proof fn law_no_sample_lost<A>(start: WorkerView<A>, events: Seq<WorkerEventView<A>>)
    requires
        run(start, events) is Some,
    ensures
        samples_analysed(run(start, events).unwrap().1) + run(start, events).unwrap().0.incoming
            == start.incoming + samples_read(events),
    decreases events.len(),
{
    let (end, actions) = run(start, events).unwrap();
    if events.len() == 0 {
        assert(samples_analysed(actions) + end.incoming =~= start.incoming + samples_read(events));
    } else {
        let before = run(start, events.drop_last()).unwrap().1;
        law_no_sample_lost(start, events.drop_last());
        assert(actions.drop_last() =~= before);
        let all = start.incoming + samples_read(events.drop_last());
        match events.last() {
            WorkerEventView::Bytes(bytes) => {
                assert(samples_analysed(actions) =~= samples_analysed(before));
                assert(samples_analysed(actions) + end.incoming =~= all + samples_of(bytes));
            },
            _ => {
                assert(samples_analysed(actions) + end.incoming =~= all);
            },
        }
        assert(samples_analysed(actions) + end.incoming =~= start.incoming + samples_read(events));
    }
}

/// All audio that comes in is handed out for sending once, in order, or is still waiting.
pub proof fn law_no_audio_lost<A>(start: WorkerView<A>, events: Seq<WorkerEventView<A>>)
    requires
        run(start, events) is Some,
    ensures
        audio_handed_out(run(start, events).unwrap().1) + run(start, events).unwrap().0.audio == start.audio
            + audio_received(events),
    decreases events.len(),
{
    let (end, actions) = run(start, events).unwrap();
    if events.len() == 0 {
        assert(audio_handed_out(actions) + end.audio =~= start.audio + audio_received(events));
    } else {
        let before = run(start, events.drop_last()).unwrap().1;
        law_no_audio_lost(start, events.drop_last());
        assert(actions.drop_last() =~= before);
        let all = start.audio + audio_received(events.drop_last());
        match events.last() {
            WorkerEventView::Analysed { audio, .. } => {
                assert(audio_handed_out(actions) =~= audio_handed_out(before));
                assert(audio_handed_out(actions) + end.audio =~= all + audio);
            },
            _ => {
                assert(audio_handed_out(actions) + end.audio =~= all);
            },
        }
        assert(audio_handed_out(actions) + end.audio =~= start.audio + audio_received(events));
    }
}

/// Clients are sent exactly the spectra and the encoded audio, in the order in which they were
/// made.
pub proof fn law_all_data_sent<A>(start: WorkerView<A>, events: Seq<WorkerEventView<A>>)
    requires
        run(start, events) is Some,
    ensures
        data_sent(run(start, events).unwrap().1) == data_produced(events),
    decreases events.len(),
{
    if events.len() > 0 {
        let before = run(start, events.drop_last()).unwrap().1;
        law_all_data_sent(start, events.drop_last());
        assert(run(start, events).unwrap().1.drop_last() =~= before);
    }
}

/// Every block that is analysed has the length of the transform, and every run of audio that is
/// encoded has the length of a message.
pub proof fn law_portion_sizes<A>(state: WorkerView<A>, event: WorkerEventView<A>)
    requires
        state.told(event) is Some,
    ensures
        match state.told(event).unwrap().1 {
            WorkerActionView::Analyse { block, .. } => block.len() == FFT_LEN,
            WorkerActionView::Encode(audio) => audio.len() == AUDIO_CHUNK,
            _ => true,
        },
{
}

/// The backlog fits the place in the cycle at every step of a run that begins so, such as one
/// from the start; whenever the receiver is read, less than one block of samples and less than one
/// message of audio are waiting.
pub proof fn law_backlog_bounded<A>(start: WorkerView<A>, events: Seq<WorkerEventView<A>>)
    requires
        backlog_fits(start),
        run(start, events) is Some,
    ensures
        backlog_fits(run(start, events).unwrap().0),
        events.len() > 0 && run(start, events).unwrap().1.last() is Read ==> {
            &&& run(start, events).unwrap().0.incoming.len() < FFT_LEN
            &&& run(start, events).unwrap().0.audio.len() < AUDIO_CHUNK
        },
    decreases events.len(),
{
    if events.len() > 0 {
        law_backlog_bounded(start, events.drop_last());
    }
}

/// How many of the data are spectra.
pub open spec fn spectra(data: Seq<DataView>) -> nat
    decreases data.len(),
{
    if data.len() == 0 {
        0
    } else {
        spectra(data.drop_last()) + if data.last() is Fft {
            1nat
        } else {
            0
        }
    }
}

/// How many of the data are audio messages.
pub open spec fn audio_messages(data: Seq<DataView>) -> nat
    decreases data.len(),
{
    if data.len() == 0 {
        0
    } else {
        audio_messages(data.drop_last()) + if data.last() is Audio {
            1nat
        } else {
            0
        }
    }
}

/// An analysis that was asked for gives a bin for each sample and an audio sample for each pair,
/// and an encoding a 16-bit sample for each audio sample.
pub open spec fn in_full<A>(answer: WorkerEventView<A>, action: WorkerActionView<A>) -> bool {
    match (answer, action) {
        (
            WorkerEventView::Analysed { bins, audio },
            WorkerActionView::Analyse { block, pairs },
        ) => bins.len() == block.len() && audio.len() == pairs.len(),
        (WorkerEventView::Encoded(pcm), WorkerActionView::Encode(audio)) => pcm.len()
            == audio.len(),
        _ => true,
    }
}

/// From `start` on, each of `events` answers in full what the cycle wanted done just before.
pub open spec fn all_in_full<A>(start: WorkerView<A>, events: Seq<WorkerEventView<A>>) -> bool
    decreases events.len(),
{
    events.len() > 0 ==> {
        &&& all_in_full(start, events.drop_last())
        &&& match run(start, events.drop_last()) {
            Some((_, actions)) => actions.len() > 0 ==> in_full(events.last(), actions.last()),
            None => true,
        }
    }
}

proof fn lemma_audio_balance<A>(events: Seq<WorkerEventView<A>>)
    requires
        run(WorkerView::<A>::start(), events) is Some,
        all_in_full(WorkerView::<A>::start(), events),
    ensures
        ({
            let (end, actions) = run(WorkerView::<A>::start(), events).unwrap();
            let data = data_sent(actions);
            let encoding: int = if end.awaiting is Encoding {
                1
            } else {
                0
            };
            &&& end.audio.len() + 441 * (audio_messages(data) + encoding) == 76 * spectra(data)
            &&& end.awaiting is Analysis ==> actions.len() > 0 && (
            actions.last() matches WorkerActionView::Analyse { block, pairs } && block.len()
                == FFT_LEN && pairs.len() == 76)
            &&& end.awaiting is Encoding ==> actions.len() > 0 && (
            actions.last() matches WorkerActionView::Encode(audio) && audio.len() == 441)
            &&& forall|i: int|
                0 <= i < data.len() ==> match #[trigger] data[i] {
                    DataView::Fft(bins) => bins.len() == FFT_LEN,
                    DataView::Audio(bytes) => bytes.len() == 882,
                }
        }),
    decreases events.len(),
{
    if events.len() > 0 {
        let start = WorkerView::<A>::start();
        lemma_audio_balance(events.drop_last());
        let (state, before) = run(start, events.drop_last()).unwrap();
        let (end, actions) = run(start, events).unwrap();
        assert(actions.drop_last() =~= before);
        let sent = data_sent(before);
        match actions.last() {
            WorkerActionView::Broadcast(data) => {
                assert(data_sent(actions) == sent.push(data));
                assert(data_sent(actions).drop_last() =~= sent);
            },
            WorkerActionView::Analyse { block, pairs } => {
                law_block_audio_count(block);
                assert(data_sent(actions) == sent);
            },
            _ => {
                assert(data_sent(actions) == sent);
            },
        }
    }
}

/// When every answer is given in full, audio keeps pace with the spectra: each block adds 76 audio
/// samples, and a message takes 441 of them. So whenever the receiver is read after `n` spectra,
/// `76 * n / 441` audio messages of 882 bytes each have gone out, and `76 * n % 441` audio samples
/// wait for the next one.
pub proof fn law_audio_keeps_pace<A>(events: Seq<WorkerEventView<A>>)
    requires
        run(WorkerView::<A>::start(), events) is Some,
        all_in_full(WorkerView::<A>::start(), events),
    ensures
        ({
            let (end, actions) = run(WorkerView::<A>::start(), events).unwrap();
            let data = data_sent(actions);
            &&& forall|i: int|
                0 <= i < data.len() ==> (#[trigger] data[i] matches DataView::Audio(bytes)
                    ==> bytes.len() == 882)
            &&& actions.len() > 0 && actions.last() is Read ==> {
                &&& audio_messages(data) == 76 * spectra(data) / 441
                &&& end.audio.len() == 76 * spectra(data) % 441
            }
        }),
{
    lemma_audio_balance(events);
    law_backlog_bounded(WorkerView::<A>::start(), events);
    lemma_action_per_event(WorkerView::<A>::start(), events);
}

/// The blocks that were handed out for analysis, in order.
pub open spec fn blocks<A>(actions: Seq<WorkerActionView<A>>) -> Seq<Seq<IqSample>>
    decreases actions.len(),
{
    if actions.len() == 0 {
        Seq::empty()
    } else {
        match actions.last() {
            WorkerActionView::Analyse { block, .. } => blocks(actions.drop_last()).push(block),
            _ => blocks(actions.drop_last()),
        }
    }
}

/// From the start on: the blocks are of one length and make up the samples that were analysed, and
/// each but one under analysis has given a spectrum.
proof fn lemma_blocks<A>(events: Seq<WorkerEventView<A>>)
    requires
        run(WorkerView::<A>::start(), events) is Some,
    ensures
        ({
            let (end, actions) = run(WorkerView::<A>::start(), events).unwrap();
            let analysing: int = if end.awaiting is Analysis {
                1
            } else {
                0
            };
            let analysed = samples_analysed(actions);
            &&& spectra(data_sent(actions)) + analysing == blocks(actions).len()
            &&& analysed.len() == FFT_LEN * blocks(actions).len()
            &&& forall|j: int|
                0 <= j < blocks(actions).len() ==> #[trigger] blocks(actions)[j]
                    == analysed.subrange(4096 * j, 4096 * (j + 1))
            &&& end.awaiting is Analysis ==> actions.len() > 0 && (
            actions.last() matches WorkerActionView::Analyse { block, pairs } && block == blocks(
                actions,
            ).last() && pairs == phase_pairs(block))
        }),
    decreases events.len(),
{
    if events.len() > 0 {
        let start = WorkerView::<A>::start();
        lemma_blocks(events.drop_last());
        let (state, before) = run(start, events.drop_last()).unwrap();
        let (end, actions) = run(start, events).unwrap();
        assert(actions.drop_last() =~= before);
        let done = samples_analysed(before);
        let analysed = samples_analysed(actions);
        match actions.last() {
            WorkerActionView::Broadcast(data) => {
                assert(data_sent(actions).drop_last() =~= data_sent(before));
                assert(analysed =~= done);
            },
            WorkerActionView::Analyse { block, .. } => {
                assert(data_sent(actions) == data_sent(before));
                assert(block.len() == FFT_LEN);
                assert(analysed == done + block);
                assert forall|j: int| 0 <= j < blocks(actions).len() implies #[trigger] blocks(
                    actions,
                )[j] == analysed.subrange(4096 * j, 4096 * (j + 1)) by {
                    if j < blocks(before).len() {
                        assert(blocks(before)[j] == done.subrange(4096 * j, 4096 * (j + 1)));
                        assert(analysed.subrange(4096 * j, 4096 * (j + 1)) =~= done.subrange(
                            4096 * j,
                            4096 * (j + 1),
                        ));
                    } else {
                        assert(analysed.subrange(4096 * j, 4096 * (j + 1)) =~= block);
                    }
                }
            },
            _ => {
                assert(data_sent(actions) == data_sent(before));
                assert(analysed =~= done);
            },
        }
    }
}

/// From the start on, block `j` holds the samples from `4096 * j` on, of all that were read.
pub proof fn law_blocks_in_place<A>(events: Seq<WorkerEventView<A>>, j: int)
    requires
        run(WorkerView::<A>::start(), events) is Some,
        0 <= j < blocks(run(WorkerView::<A>::start(), events).unwrap().1).len(),
    ensures
        4096 * (j + 1) <= samples_read(events).len(),
        blocks(run(WorkerView::<A>::start(), events).unwrap().1)[j] == samples_read(
            events,
        ).subrange(4096 * j, 4096 * (j + 1)),
{
    let start = WorkerView::<A>::start();
    let (end, actions) = run(start, events).unwrap();
    lemma_blocks(events);
    law_no_sample_lost(start, events);
    let analysed = samples_analysed(actions);
    assert(start.incoming + samples_read(events) =~= samples_read(events));
    assert(samples_read(events).subrange(4096 * j, 4096 * (j + 1)) =~= analysed.subrange(
        4096 * j,
        4096 * (j + 1),
    ));
}

/// Spectra keep pace with the samples: whenever the receiver is read, one spectrum has gone out
/// for each full block of the samples read so far.
pub proof fn law_spectra_keep_pace<A>(events: Seq<WorkerEventView<A>>)
    requires
        run(WorkerView::<A>::start(), events) is Some,
        events.len() > 0,
        run(WorkerView::<A>::start(), events).unwrap().1.last() is Read,
    ensures
        spectra(data_sent(run(WorkerView::<A>::start(), events).unwrap().1)) == samples_read(
            events,
        ).len() / (FFT_LEN as nat),
{
    let start = WorkerView::<A>::start();
    lemma_blocks(events);
    law_no_sample_lost(start, events);
    law_backlog_bounded(start, events);
    let (end, actions) = run(start, events).unwrap();
    assert(samples_analysed(actions).len() + end.incoming.len() == samples_read(events).len());
}

/// When every answer is given in full, every spectrum that is sent has a byte for each sample of
/// its block.
pub proof fn law_spectrum_sizes<A>(events: Seq<WorkerEventView<A>>, i: int)
    requires
        run(WorkerView::<A>::start(), events) is Some,
        all_in_full(WorkerView::<A>::start(), events),
        0 <= i < data_sent(run(WorkerView::<A>::start(), events).unwrap().1).len(),
    ensures
        data_sent(run(WorkerView::<A>::start(), events).unwrap().1)[i] matches DataView::Fft(bins)
            ==> bins.len() == FFT_LEN,
{
    lemma_audio_balance(events);
}

/// An analysis that was asked for gives `step` of each pair, and an encoding `level` of each audio
/// sample.
pub open spec fn computed<A>(
    answer: WorkerEventView<A>,
    action: WorkerActionView<A>,
    step: spec_fn([IqSample; 2]) -> A,
    level: spec_fn(A) -> i16,
) -> bool {
    match (answer, action) {
        (
            WorkerEventView::Analysed { audio, .. },
            WorkerActionView::Analyse { pairs, .. },
        ) => audio == pairs.map_values(step),
        (WorkerEventView::Encoded(pcm), WorkerActionView::Encode(audio)) => pcm
            == audio.map_values(level),
        _ => true,
    }
}

/// From `start` on, each of `events` answers what the cycle wanted done just before by `step` and
/// `level`.
pub open spec fn all_computed<A>(
    start: WorkerView<A>,
    events: Seq<WorkerEventView<A>>,
    step: spec_fn([IqSample; 2]) -> A,
    level: spec_fn(A) -> i16,
) -> bool
    decreases events.len(),
{
    events.len() > 0 ==> {
        &&& all_computed(start, events.drop_last(), step, level)
        &&& match run(start, events.drop_last()) {
            Some((_, actions)) => actions.len() > 0 ==> computed(
                events.last(),
                actions.last(),
                step,
                level,
            ),
            None => true,
        }
    }
}

/// The bytes of all audio messages among the data, one after the other.
pub open spec fn audio_bytes(data: Seq<DataView>) -> Seq<u8>
    decreases data.len(),
{
    if data.len() == 0 {
        Seq::empty()
    } else {
        audio_bytes(data.drop_last()) + match data.last() {
            DataView::Audio(bytes) => bytes,
            DataView::Fft(_) => Seq::empty(),
        }
    }
}

/// The two samples, of all that were read, that audio sample `i` comes from.
pub open spec fn source_pair(samples: Seq<IqSample>, i: int) -> [IqSample; 2] {
    let first = 4096 * (i / 76) + 54 * (i % 76);
    [samples[first], samples[first + 6]]
}

proof fn lemma_audio_from_blocks<A>(
    events: Seq<WorkerEventView<A>>,
    step: spec_fn([IqSample; 2]) -> A,
    level: spec_fn(A) -> i16,
)
    requires
        run(WorkerView::<A>::start(), events) is Some,
        all_computed(WorkerView::<A>::start(), events, step, level),
    ensures
        ({
            let (end, actions) = run(WorkerView::<A>::start(), events).unwrap();
            let analysing: int = if end.awaiting is Analysis {
                1
            } else {
                0
            };
            let audio = audio_received(events);
            &&& audio.len() == 76 * (blocks(actions).len() - analysing)
            &&& forall|i: int|
                0 <= i < audio.len() ==> #[trigger] audio[i] == step(
                    phase_pairs(blocks(actions)[i / 76])[i % 76],
                )
        }),
    decreases events.len(),
{
    if events.len() > 0 {
        let start = WorkerView::<A>::start();
        lemma_audio_from_blocks(events.drop_last(), step, level);
        lemma_blocks(events.drop_last());
        let (state, before) = run(start, events.drop_last()).unwrap();
        let (end, actions) = run(start, events).unwrap();
        assert(actions.drop_last() =~= before);
        let heard = audio_received(events.drop_last());
        let audio = audio_received(events);
        match events.last() {
            WorkerEventView::Analysed { bins, audio: added } => {
                let j = blocks(before).len() - 1;
                let block = blocks(before)[j];
                assert(block.len() == FFT_LEN);
                law_block_audio_count(block);
                assert(blocks(actions) == blocks(before));
                assert(added == phase_pairs(block).map_values(step));
                assert(audio == heard + added);
                assert forall|i: int| 0 <= i < audio.len() implies #[trigger] audio[i] == step(
                    phase_pairs(blocks(actions)[i / 76])[i % 76],
                ) by {
                    if i < heard.len() {
                        assert(audio[i] == heard[i]);
                    } else {
                        assert(audio[i] == added[i - heard.len()]);
                        assert(i / 76 == j && i % 76 == i - heard.len());
                    }
                }
            },
            _ => {
                assert(audio =~= heard);
                assert forall|i: int| 0 <= i < audio.len() implies #[trigger] audio[i] == step(
                    phase_pairs(blocks(actions)[i / 76])[i % 76],
                ) by {
                    assert(audio[i] == heard[i]);
                    assert(blocks(actions)[i / 76] == blocks(before)[i / 76]);
                }
            },
        }
    }
}

/// When phase steps are computed by `step`, audio sample `i` of all that are handed out comes from
/// two samples six apart: those at `54 * (i % 76)` and six further on in block `i / 76` of the
/// samples that were read.
pub proof fn law_audio_from_samples<A>(
    events: Seq<WorkerEventView<A>>,
    step: spec_fn([IqSample; 2]) -> A,
    level: spec_fn(A) -> i16,
    i: int,
)
    requires
        run(WorkerView::<A>::start(), events) is Some,
        all_computed(WorkerView::<A>::start(), events, step, level),
        0 <= i < audio_handed_out(run(WorkerView::<A>::start(), events).unwrap().1).len(),
    ensures
        4096 * (i / 76) + 54 * (i % 76) + 6 < samples_read(events).len(),
        audio_handed_out(run(WorkerView::<A>::start(), events).unwrap().1)[i] == step(
            source_pair(samples_read(events), i),
        ),
{
    let start = WorkerView::<A>::start();
    let (end, actions) = run(start, events).unwrap();
    lemma_audio_from_blocks(events, step, level);
    law_no_audio_lost(start, events);
    assert(start.audio + audio_received(events) =~= audio_received(events));
    assert(audio_handed_out(actions)[i] == (audio_handed_out(actions) + end.audio)[i]);
    let j = i / 76;
    let k = i % 76;
    law_blocks_in_place(events, j);
    let block = blocks(actions)[j];
    law_block_audio_count(block);
    law_phase_pair_positions(block, k);
    assert(block[54 * k] == samples_read(events)[4096 * j + 54 * k]);
    assert(block[54 * k + 6] == samples_read(events)[4096 * j + 54 * k + 6]);
}

proof fn lemma_pcm_bytes_concatenate(a: Seq<i16>, b: Seq<i16>)
    ensures
        pcm_bytes(a + b) == pcm_bytes(a) + pcm_bytes(b),
{
    let both = pcm_bytes(a + b);
    assert forall|i: int| 0 <= i < both.len() implies #[trigger] both[i] == (pcm_bytes(a)
        + pcm_bytes(b))[i] by {
        if i >= 2 * a.len() {
            let k = i - 2 * a.len();
            assert(i / 2 - a.len() == k / 2 && i % 2 == k % 2);
        }
    }
    assert(both =~= pcm_bytes(a) + pcm_bytes(b));
}

proof fn lemma_audio_bytes<A>(
    events: Seq<WorkerEventView<A>>,
    step: spec_fn([IqSample; 2]) -> A,
    level: spec_fn(A) -> i16,
)
    requires
        run(WorkerView::<A>::start(), events) is Some,
        all_computed(WorkerView::<A>::start(), events, step, level),
    ensures
        ({
            let (end, actions) = run(WorkerView::<A>::start(), events).unwrap();
            let bytes = audio_bytes(data_sent(actions));
            let audio = audio_handed_out(actions);
            if end.awaiting is Encoding {
                &&& actions.len() > 0
                &&& actions.last() matches WorkerActionView::Encode(chunk)
                &&& audio == audio_handed_out(actions.drop_last()) + chunk
                &&& bytes == pcm_bytes(audio_handed_out(actions.drop_last()).map_values(level))
            } else {
                bytes == pcm_bytes(audio.map_values(level))
            }
        }),
    decreases events.len(),
{
    let start = WorkerView::<A>::start();
    let (end, actions) = run(start, events).unwrap();
    if events.len() == 0 {
        assert(audio_bytes(data_sent(actions)) =~= pcm_bytes(
            audio_handed_out(actions).map_values(level),
        ));
    } else {
        lemma_audio_bytes(events.drop_last(), step, level);
        let (state, before) = run(start, events.drop_last()).unwrap();
        assert(actions.drop_last() =~= before);
        let sent = data_sent(before);
        match actions.last() {
            WorkerActionView::Broadcast(data) => {
                assert(data_sent(actions).drop_last() =~= sent);
                assert(audio_handed_out(actions) =~= audio_handed_out(before));
                if let WorkerEventView::Encoded(pcm) = events.last() {
                    let chunk = before.last()->Encode_0;
                    let earlier = audio_handed_out(before.drop_last());
                    assert((earlier + chunk).map_values(level) =~= earlier.map_values(level)
                        + chunk.map_values(level));
                    lemma_pcm_bytes_concatenate(earlier.map_values(level), pcm);
                } else {
                    assert(audio_bytes(data_sent(actions)) =~= audio_bytes(sent));
                }
            },
            WorkerActionView::Encode(chunk) => {},
            _ => {
                assert(audio_handed_out(actions) =~= audio_handed_out(before));
            },
        }
    }
}

/// When answers are computed by `step` and `level`, the bytes of the audio messages are those of
/// the audio samples, one after the other: the 16-bit value of sample `i`, from the samples that
/// were read, stands at bytes `2 * i` and `2 * i + 1`.
pub proof fn law_audio_bytes_from_samples<A>(
    events: Seq<WorkerEventView<A>>,
    step: spec_fn([IqSample; 2]) -> A,
    level: spec_fn(A) -> i16,
    i: int,
)
    requires
        run(WorkerView::<A>::start(), events) is Some,
        all_computed(WorkerView::<A>::start(), events, step, level),
        0 <= 2 * i < audio_bytes(
            data_sent(run(WorkerView::<A>::start(), events).unwrap().1),
        ).len(),
    ensures
        ({
            let bytes = audio_bytes(data_sent(run(WorkerView::<A>::start(), events).unwrap().1));
            &&& 2 * i + 1 < bytes.len()
            &&& bytes.subrange(2 * i, 2 * i + 2) == le_bytes(
                level(step(source_pair(samples_read(events), i))),
            )
        }),
{
    let (end, actions) = run(WorkerView::<A>::start(), events).unwrap();
    lemma_audio_bytes(events, step, level);
    let bytes = audio_bytes(data_sent(actions));
    let audio = if end.awaiting is Encoding {
        audio_handed_out(actions.drop_last())
    } else {
        audio_handed_out(actions)
    };
    let pcm = audio.map_values(level);
    assert(bytes == pcm_bytes(pcm));
    assert(bytes.len() == 2 * audio.len());
    assert(audio[i] == audio_handed_out(actions)[i]);
    law_audio_from_samples(events, step, level, i);
    assert(bytes[2 * i] == le_bytes(pcm[i])[0]);
    assert(bytes[2 * i + 1] == le_bytes(pcm[i])[1]);
    assert(bytes.subrange(2 * i, 2 * i + 2) =~= le_bytes(pcm[i]));
}

/// The cycle never gets stuck and never skips: it goes on when it is told the answer to what it
/// wanted done, and only then.
pub proof fn law_answer_continues<A>(
    state: WorkerView<A>,
    event: WorkerEventView<A>,
    answer: WorkerEventView<A>,
)
    requires
        state.told(event) is Some,
    ensures
        state.told(event).unwrap().0.told(answer) is Some <==> answers(answer, state.told(event).unwrap().1),
{
}

/// The cycle closes the receiver when it is told to end, and for no other reason; after that it
/// does nothing more.
pub proof fn law_closes_when_told<A>(
    state: WorkerView<A>,
    event: WorkerEventView<A>,
    later: WorkerEventView<A>,
)
    requires
        state.told(event) is Some,
    ensures
        state.told(event).unwrap().1 is Close <==> event == WorkerEventView::<A>::Terminated(true),
        state.told(event).unwrap().1 is Close ==> state.told(event).unwrap().0.told(later) is None,
{
}

/// The samples, the place in the cycle and the audio that stand between a state and the next look
/// for commands or the next read.
pub open spec fn work_left<A>(state: WorkerView<A>) -> (nat, nat, nat, nat) {
    let (stage, audio, step) = match state.awaiting {
        Awaiting::Check => (7nat, 0nat, 0nat),
        Awaiting::Analysis => (6nat, 0nat, 0nat),
        Awaiting::SpectrumSent => (5nat, 0nat, 0nat),
        Awaiting::Encoding => (4nat, state.audio.len(), 1nat),
        Awaiting::AudioSent => (4nat, state.audio.len(), 0nat),
        Awaiting::Command { .. } => (3nat, 0nat, 0nat),
        Awaiting::Retuning => (2nat, 0nat, 0nat),
        Awaiting::Bytes => (1nat, 0nat, 0nat),
        Awaiting::Nothing => (0nat, 0nat, 0nat),
    };
    (state.incoming.len(), stage, audio, step)
}

/// Between two reads the cycle has an end, unless commands keep coming: everything else that it
/// is told brings it nearer.
pub proof fn law_work_gets_done<A>(state: WorkerView<A>, event: WorkerEventView<A>)
    requires
        state.told(event) is Some,
        !(event is Bytes),
        !(event matches WorkerEventView::Command(Some(_))),
    ensures
        ({
            let before = work_left(state);
            let after = work_left(state.told(event).unwrap().0);
            ||| after.0 < before.0
            ||| after.0 == before.0 && after.1 < before.1
            ||| after.0 == before.0 && after.1 == before.1 && after.2 < before.2
            ||| after.0 == before.0 && after.1 == before.1 && after.2 == before.2 && after.3
                < before.3
        }),
{
}

/// The events of one round of commands: all that wait, then that there are no more.
pub open spec fn command_round<A>(commands: Seq<SdrCommand>) -> Seq<WorkerEventView<A>> {
    commands.map_values(|command: SdrCommand| WorkerEventView::<A>::Command(Some(command))).push(
        WorkerEventView::Command(None),
    )
}

proof fn lemma_commands_collected<A>(state: WorkerView<A>, commands: Seq<SdrCommand>)
    requires
        state.awaiting == (Awaiting::Command { newest: None }),
    ensures
        run(
            state,
            commands.map_values(|command: SdrCommand| WorkerEventView::<A>::Command(Some(command))),
        ) matches Some((end, actions)) && end == state.wait_for(
            Awaiting::Command { newest: newest_frequency(commands) },
        ) && forall|k: int|
            0 <= k < actions.len() ==> #[trigger] actions[k] is PollCommand,
    decreases commands.len(),
{
    let events = commands.map_values(
        |command: SdrCommand| WorkerEventView::<A>::Command(Some(command)),
    );
    if commands.len() > 0 {
        lemma_commands_collected(state, commands.drop_last());
        assert(events.drop_last() =~= commands.drop_last().map_values(
            |command: SdrCommand| WorkerEventView::<A>::Command(Some(command)),
        ));
    }
}

/// Of the commands that wait, the last one counts: the receiver is tuned once, to the frequency
/// that it asks for. Without a command the receiver is left alone and read.
pub proof fn law_last_command_counts<A>(state: WorkerView<A>, commands: Seq<SdrCommand>)
    requires
        state.awaiting == (Awaiting::Command { newest: None }),
    ensures
        run(state, command_round(commands)) matches Some((end, actions)) && {
            &&& actions.len() == commands.len() + 1
            &&& forall|k: int| 0 <= k < commands.len() ==> #[trigger] actions[k] is PollCommand
            &&& match newest_frequency(commands) {
                Some(frequency) => {
                    &&& actions.last() == WorkerActionView::<A>::Retune(frequency)
                    &&& end == state.wait_for(Awaiting::Retuning)
                },
                None => {
                    &&& actions.last() == WorkerActionView::<A>::Read
                    &&& end == state.wait_for(Awaiting::Bytes)
                },
            }
        },
{
    lemma_commands_collected(state, commands);
    let events = commands.map_values(
        |command: SdrCommand| WorkerEventView::<A>::Command(Some(command)),
    );
    assert(command_round::<A>(commands).drop_last() =~= events);
    lemma_action_per_event(state, events);
}

proof fn lemma_action_per_event<A>(start: WorkerView<A>, events: Seq<WorkerEventView<A>>)
    requires
        run(start, events) is Some,
    ensures
        run(start, events).unwrap().1.len() == events.len(),
    decreases events.len(),
{
    if events.len() > 0 {
        lemma_action_per_event(start, events.drop_last());
    }
}

/// Where a run from the start has come to: what waits is what came in and has not been handed out,
/// and the cycle waits for the answer to what it wanted done last.
proof fn lemma_state_from_history<A>(events: Seq<WorkerEventView<A>>)
    requires
        run(WorkerView::<A>::start(), events) is Some,
    ensures
        ({
            let (end, actions) = run(WorkerView::<A>::start(), events).unwrap();
            &&& actions.len() == events.len()
            &&& end.incoming == samples_read(events).skip(samples_analysed(actions).len() as int)
            &&& end.audio == audio_received(events).skip(audio_handed_out(actions).len() as int)
            &&& backlog_fits(end)
            &&& events.len() == 0 ==> end.awaiting is Check
            &&& events.len() > 0 ==> match end.awaiting {
                Awaiting::Check => actions.last() is CheckTerminated,
                Awaiting::Analysis => actions.last() is Analyse,
                Awaiting::SpectrumSent | Awaiting::AudioSent => actions.last() is Broadcast,
                Awaiting::Encoding => actions.last() is Encode,
                Awaiting::Command { newest } => actions.last() is PollCommand && newest == (
                match events.last() {
                    WorkerEventView::Command(Some(SdrCommand::ChangeFrequency { frequency })) => {
                        Some(frequency)
                    },
                    _ => None,
                }),
                Awaiting::Retuning => actions.last() is Retune,
                Awaiting::Bytes => actions.last() is Read,
                Awaiting::Nothing => actions.last() is Close,
            }
        }),
    decreases events.len(),
{
    let start = WorkerView::<A>::start();
    let (end, actions) = run(start, events).unwrap();
    lemma_action_per_event(start, events);
    law_backlog_bounded(start, events);
    law_no_sample_lost(start, events);
    law_no_audio_lost(start, events);
    let analysed = samples_analysed(actions);
    let handed_out = audio_handed_out(actions);
    assert(start.incoming + samples_read(events) =~= samples_read(events));
    assert(start.audio + audio_received(events) =~= audio_received(events));
    assert((analysed + end.incoming).skip(analysed.len() as int) =~= end.incoming);
    assert((handed_out + end.audio).skip(handed_out.len() as int) =~= end.audio);
    if events.len() > 0 {
        lemma_state_from_history(events.drop_last());
    }
}

/// The receiver is tuned when a client asked for it, and for no other reason: `Retune` comes
/// exactly when the cycle is told that no more commands wait right after it was told of one, and
/// for the frequency of that one, the last of its round. In every other case the receiver is left
/// alone and read.
pub proof fn law_tuned_only_when_asked<A>(events: Seq<WorkerEventView<A>>, frequency: u32)
    requires
        run(WorkerView::<A>::start(), events) is Some,
        events.len() > 0,
    ensures
        ({
            let n = events.len() as int;
            let action = run(WorkerView::<A>::start(), events).unwrap().1.last();
            &&& action == WorkerActionView::<A>::Retune(frequency) <==> {
                &&& n >= 2
                &&& events[n - 1] == WorkerEventView::<A>::Command(None)
                &&& events[n - 2] == WorkerEventView::<A>::Command(
                    Some(SdrCommand::ChangeFrequency { frequency }),
                )
            }
            &&& action is Read <==> {
                ||| events[n - 1] is Retuned
                ||| events[n - 1] == WorkerEventView::<A>::Command(None) && !(n >= 2 && (
                events[n - 2] matches WorkerEventView::Command(Some(_))))
            }
        }),
{
    let n = events.len() as int;
    lemma_state_from_history(events);
    lemma_state_from_history(events.drop_last());
    if n >= 2 {
        assert(events.drop_last().last() == events[n - 2]);
    }
}

/// What the cycle wants done follows from what it has been told since its start, and from what it
/// handed out before: it closes when told to end; it hands out the oldest samples while there are
/// enough for a block, then the oldest audio while there is enough for a message, and then looks for
/// commands; it sends what analysis and encoding gave; it looks until no more commands wait, tunes
/// to the last one asked for, if any, and reads.
pub proof fn law_action_from_history<A>(events: Seq<WorkerEventView<A>>)
    requires
        run(WorkerView::<A>::start(), events) is Some,
        events.len() > 0,
    ensures
        ({
            let n = events.len() as int;
            let actions = run(WorkerView::<A>::start(), events).unwrap().1;
            let earlier = actions.drop_last();
            let samples = samples_read(events).skip(samples_analysed(earlier).len() as int);
            let audio = audio_received(events).skip(audio_handed_out(earlier).len() as int);
            match events.last() {
                WorkerEventView::Terminated(true) => actions.last() is Close,
                WorkerEventView::Terminated(false) | WorkerEventView::Sent => {
                    if samples.len() >= 4096 {
                        &&& actions.last() matches WorkerActionView::Analyse { block, pairs }
                        &&& block == samples.take(4096)
                        &&& pairs.len() == 76
                        &&& forall|j: int|
                            0 <= j < 76 ==> #[trigger] pairs[j] == [
                                samples[54 * j],
                                samples[54 * j + 6],
                            ]
                    } else if audio.len() >= 441 {
                        actions.last() == WorkerActionView::Encode(audio.take(441))
                    } else {
                        actions.last() is PollCommand
                    }
                },
                WorkerEventView::Analysed { bins, .. } => actions.last()
                    == WorkerActionView::<A>::Broadcast(DataView::Fft(bins)),
                WorkerEventView::Encoded(pcm) => {
                    &&& actions.last() matches WorkerActionView::Broadcast(DataView::Audio(bytes))
                    &&& bytes.len() == 2 * pcm.len()
                    &&& forall|k: int|
                        0 <= k < pcm.len() ==> #[trigger] pcm[k] == bytes[2 * k] + 256 * (if bytes[2
                            * k + 1] >= 128 {
                            bytes[2 * k + 1] - 256
                        } else {
                            bytes[2 * k + 1] as int
                        })
                },
                WorkerEventView::Command(Some(_)) => actions.last() is PollCommand,
                WorkerEventView::Command(None) => {
                    if n >= 2 && (events[n - 2] matches WorkerEventView::Command(Some(_))) {
                        actions.last() == WorkerActionView::<A>::Retune(
                            events[n - 2]->Command_0.unwrap()->frequency,
                        )
                    } else {
                        actions.last() is Read
                    }
                },
                WorkerEventView::Retuned => actions.last() is Read,
                WorkerEventView::Bytes(_) => actions.last() is CheckTerminated,
            }
        }),
{
    let start = WorkerView::<A>::start();
    let n = events.len() as int;
    lemma_state_from_history(events);
    lemma_state_from_history(events.drop_last());
    let (state, before) = run(start, events.drop_last()).unwrap();
    let (end, actions) = run(start, events).unwrap();
    assert(actions.drop_last() =~= before);
    if n >= 2 {
        assert(events.drop_last().last() == events[n - 2]);
    }
    match events.last() {
        WorkerEventView::Terminated(false) | WorkerEventView::Sent => {
            assert(samples_read(events) =~= samples_read(events.drop_last()));
            assert(audio_received(events) =~= audio_received(events.drop_last()));
            if let WorkerActionView::Analyse { block, pairs } = actions.last() {
                law_block_audio_count(block);
                assert forall|j: int| 0 <= j < 76 implies #[trigger] pairs[j] == [
                    state.incoming[54 * j],
                    state.incoming[54 * j + 6],
                ] by {
                    law_phase_pair_positions(block, j);
                }
            }
        },
        WorkerEventView::Encoded(pcm) => {
            let bytes = actions.last()->Broadcast_0->Audio_0;
            assert forall|k: int| 0 <= k < pcm.len() implies #[trigger] pcm[k] == bytes[2 * k] + 256
                * (if bytes[2 * k + 1] >= 128 {
                bytes[2 * k + 1] - 256
            } else {
                bytes[2 * k + 1] as int
            }) by {
                law_pcm_layout(pcm, k);
            }
        },
        _ => {},
    }
}

/// From its start on, the cycle takes the answer to what it wanted done last, and nothing else; the
/// first thing that it takes is whether to end, and after closing it takes nothing more.
pub proof fn law_only_answers_accepted<A>(
    events: Seq<WorkerEventView<A>>,
    event: WorkerEventView<A>,
)
    requires
        run(WorkerView::<A>::start(), events) is Some,
    ensures
        run(WorkerView::<A>::start(), events.push(event)) is Some <==> if events.len() == 0 {
            event is Terminated
        } else {
            match run(WorkerView::<A>::start(), events).unwrap().1.last() {
                WorkerActionView::CheckTerminated => event is Terminated,
                WorkerActionView::Analyse { .. } => event is Analysed,
                WorkerActionView::Broadcast(_) => event is Sent,
                WorkerActionView::Encode(_) => event is Encoded,
                WorkerActionView::PollCommand => event is Command,
                WorkerActionView::Retune(_) => event is Retuned,
                WorkerActionView::Read => event is Bytes,
                WorkerActionView::Close => false,
            }
        },
{
    lemma_state_from_history(events);
    assert(events.push(event).drop_last() =~= events);
}

/// Whenever something is wanted done, the cycle went on by what it was told; when nothing is, what
/// it was told has changed nothing.
pub proof fn law_step_goes_on_or_stays<A>(
    before: WorkerView<A>,
    event: WorkerEventView<A>,
    after: WorkerView<A>,
    action: Option<WorkerActionView<A>>,
)
    requires
        stepped(before, event, after, action),
    ensures
        match action {
            Some(wanted) => run(before, seq![event]) == Some((after, seq![wanted])),
            None => run(before, seq![event]) is None && after == before,
        },
{
    let events = seq![event];
    assert(events.drop_last() =~= Seq::<WorkerEventView<A>>::empty());
    assert(run(before, events.drop_last()) == Some(
        (before, Seq::<WorkerActionView<A>>::empty()),
    ));
    assert(Seq::<WorkerActionView<A>>::empty().push(before.told(event).unwrap().1) =~= seq![
        before.told(event).unwrap().1,
    ]);
}

/// No command is dropped. When the cycle has come to look for commands and is asked to look until
/// it wants something else, each time it looks into that channel once. All that came out before the
/// last look are commands, after each of which it looks again. When the last look finds none, the
/// receiver is tuned to the command that came out just before, and is read if there was none.
pub proof fn law_no_command_dropped<A>(
    events: Seq<WorkerEventView<A>>,
    workers: Seq<SdrWorker<A>>,
    rx: &Receiver<SdrCommand>,
    actions: Seq<Option<WorkerActionView<A>>>,
)
    requires
        run(WorkerView::<A>::start(), events) is Some,
        events.len() > 0,
        !(events.last() is Command),
        run(WorkerView::<A>::start(), events).unwrap().1.last() is PollCommand,
        actions.len() > 0,
        workers.len() == actions.len() + 1,
        workers[0]@ == run(WorkerView::<A>::start(), events).unwrap().0,
        forall|k: int|
            0 <= k < actions.len() ==> polled(
                #[trigger] workers[k],
                rx,
                workers[k + 1],
                actions[k],
            ),
        forall|k: int|
            0 <= k < actions.len() - 1 ==> #[trigger] actions[k] == Some(
                WorkerActionView::<A>::PollCommand,
            ),
    ensures
        ({
            let before = workers[0].looks().len() as int;
            let looks = workers.last().looks();
            let n = looks.len() as int;
            &&& n == before + actions.len()
            &&& looks.take(before) == workers[0].looks()
            &&& forall|k: int| before <= k < n ==> (#[trigger] looks[k]).channel == *rx
            &&& forall|k: int| before <= k < n - 1 ==> (#[trigger] looks[k]).received is Ok
            &&& actions.last() == Some(
                match looks[n - 1].received {
                    Ok(_) => WorkerActionView::<A>::PollCommand,
                    Err(_) => if n - 1 > before {
                        WorkerActionView::<A>::Retune(looks[n - 2].received->Ok_0->frequency)
                    } else {
                        WorkerActionView::<A>::Read
                    },
                },
            )
        }),
    decreases actions.len(),
{
    lemma_state_from_history(events);
    lemma_polls(workers, rx, actions, actions.len() as int - 1);
    let m = actions.len() as int - 1;
    let last = workers[m];
    let looks = workers[m + 1].looks();
    assert(polled(workers[m], rx, workers[m + 1], actions[m]));
    assert(looks.take(workers[0].looks().len() as int) =~= last.looks().take(
        workers[0].looks().len() as int,
    ));
    assert forall|k: int| 0 <= k < last.looks().len() implies #[trigger] looks[k]
        == last.looks()[k] by {
        assert(looks.drop_last()[k] == looks[k]);
    }
}

proof fn lemma_polls<A>(
    workers: Seq<SdrWorker<A>>,
    rx: &Receiver<SdrCommand>,
    actions: Seq<Option<WorkerActionView<A>>>,
    m: int,
)
    requires
        workers.len() == actions.len() + 1,
        0 <= m < actions.len(),
        workers[0]@.awaiting == (Awaiting::Command { newest: None }),
        forall|k: int|
            0 <= k < actions.len() ==> polled(
                #[trigger] workers[k],
                rx,
                workers[k + 1],
                actions[k],
            ),
        forall|k: int|
            0 <= k < actions.len() - 1 ==> #[trigger] actions[k] == Some(
                WorkerActionView::<A>::PollCommand,
            ),
    ensures
        ({
            let before = workers[0].looks().len() as int;
            let looks = workers[m].looks();
            let n = looks.len() as int;
            &&& n == before + m
            &&& looks.take(before) == workers[0].looks()
            &&& forall|k: int|
                before <= k < n ==> (#[trigger] looks[k]).channel == *rx && looks[k].received is Ok
            &&& workers[m]@.awaiting == (Awaiting::Command {
                newest: if m > 0 {
                    Some(looks[n - 1].received->Ok_0->frequency)
                } else {
                    None
                },
            })
        }),
    decreases m,
{
    if m == 0 {
        assert(workers[0].looks().take(workers[0].looks().len() as int) =~= workers[0].looks());
    } else {
        lemma_polls(workers, rx, actions, m - 1);
        let before = workers[0].looks().len() as int;
        let last = workers[m - 1];
        let looks = workers[m].looks();
        assert(polled(workers[m - 1], rx, workers[m - 1 + 1], actions[m - 1]));
        assert forall|k: int| 0 <= k < last.looks().len() implies #[trigger] looks[k]
            == last.looks()[k] by {
            assert(looks.drop_last()[k] == looks[k]);
        }
        assert(looks.take(before) =~= last.looks().take(before));
    }
}

} // verus!
