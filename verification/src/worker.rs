//! The receiver's work cycle: from the bytes that it reads to the data that clients get.
use async_channel::Receiver;
use async_channel::TryRecvError;
use vstd::prelude::*;

use crate::demod::Demodulator;
use crate::demod::discriminator_pairs;
use crate::demod::phase_pairs;
use crate::payload::Data;
use crate::payload::DataView;
use crate::payload::pcm_bytes;
use crate::radio::AUDIO_CHUNK;
use crate::radio::FFT_LEN;
use crate::radio::IqSample;
use crate::radio::decode_samples;
use crate::radio::samples_of;
use crate::session::SdrCommand;
use crate::worker::inbox::Inbox;
use crate::worker::inbox::Look;

pub mod inbox;

verus! {

/// Why there was nothing to receive, as the `async-channel` crate says it.
#[verifier::external_type_specification]
#[verifier::external_body]
pub struct ExTryRecvError(TryRecvError);

/// `async_channel::Receiver::try_recv`: the next item, or why there is none, without waiting.
/// What comes back depends on what other threads have sent, so nothing is said of it but that the
/// inbox has looked into this channel once more, with this outcome.
#[verifier::external_body]
fn try_recv(inbox: &mut Inbox, rx: &Receiver<SdrCommand>) -> (received: Result<
    SdrCommand,
    TryRecvError,
>)
    ensures
        final(inbox).looks() == old(inbox).looks().push(Look { channel: *rx, received }),
    opens_invariants none
{
    rx.try_recv()
}

/// `received` is what looking into the channel behind `rx` may give.
pub closed spec fn may_receive(
    rx: &Receiver<SdrCommand>,
    received: Result<SdrCommand, TryRecvError>,
) -> bool {
    exists|inbox: &mut Inbox| #[trigger] call_ensures(try_recv, (inbox, rx), received)
}

/// The command that was received; nothing if there was none, for whatever reason.
pub open spec fn command_in(received: Result<SdrCommand, TryRecvError>) -> Option<SdrCommand> {
    match received {
        Ok(command) => Some(command),
        Err(_) => None,
    }
}

/// What the cycle waits to be told.
#[derive(Clone, Copy, Debug, PartialEq, Eq, Structural)]
pub enum Awaiting {
    /// Whether it should end.
    Check,
    /// The spectrum and the phase steps of a block of samples.
    Analysis,
    /// That a spectrum has gone out.
    SpectrumSent,
    /// A run of audio as 16-bit samples.
    Encoding,
    /// That audio has gone out.
    AudioSent,
    /// A command, or that there is none; `newest` is the frequency that the commands of this
    /// round asked for last.
    Command { newest: Option<u32> },
    /// That the frequency has been changed.
    Retuning,
    /// Bytes from the receiver.
    Bytes,
    /// Nothing: it has ended.
    Nothing,
}

/// What the cycle is told.
pub enum WorkerEvent<A> {
    /// Whether it should end.
    Terminated(bool),
    /// The spectrum of the block, and the audio for the phase steps of its pairs.
    Analysed { bins: Vec<u8>, audio: Vec<A> },
    /// The data has gone out.
    Sent,
    /// The audio as 16-bit samples.
    Encoded(Vec<i16>),
    /// The next command, if one is waiting.
    Command(Option<SdrCommand>),
    /// The frequency has been changed, or could not be.
    Retuned,
    /// The bytes that the receiver delivered.
    Bytes(Vec<u8>),
}

/// What the cycle wants done.
pub enum WorkerAction<A> {
    /// Find out whether to end.
    CheckTerminated,
    /// Compute the spectrum of `block`, and the phase steps of `pairs`.
    Analyse { block: Vec<IqSample>, pairs: Vec<[IqSample; 2]> },
    /// Send data to all clients.
    Broadcast(Data),
    /// Turn audio into 16-bit samples.
    Encode(Vec<A>),
    /// Look for a command.
    PollCommand,
    /// Drop what the receiver has buffered and change its frequency.
    Retune(u32),
    /// Read from the receiver.
    Read,
    /// Close the receiver.
    Close,
}

/// A [`WorkerEvent`] as a value.
pub enum WorkerEventView<A> {
    Terminated(bool),
    Analysed { bins: Seq<u8>, audio: Seq<A> },
    Sent,
    Encoded(Seq<i16>),
    Command(Option<SdrCommand>),
    Retuned,
    Bytes(Seq<u8>),
}

/// A [`WorkerAction`] as a value.
pub enum WorkerActionView<A> {
    CheckTerminated,
    Analyse { block: Seq<IqSample>, pairs: Seq<[IqSample; 2]> },
    Broadcast(DataView),
    Encode(Seq<A>),
    PollCommand,
    Retune(u32),
    Read,
    Close,
}

impl<A> View for WorkerEvent<A> {
    type V = WorkerEventView<A>;

    open spec fn view(&self) -> WorkerEventView<A> {
        match self {
            WorkerEvent::Terminated(terminated) => WorkerEventView::Terminated(*terminated),
            WorkerEvent::Analysed { bins, audio } => WorkerEventView::Analysed {
                bins: bins@,
                audio: audio@,
            },
            WorkerEvent::Sent => WorkerEventView::Sent,
            WorkerEvent::Encoded(pcm) => WorkerEventView::Encoded(pcm@),
            WorkerEvent::Command(command) => WorkerEventView::Command(*command),
            WorkerEvent::Retuned => WorkerEventView::Retuned,
            WorkerEvent::Bytes(bytes) => WorkerEventView::Bytes(bytes@),
        }
    }
}

impl<A> View for WorkerAction<A> {
    type V = WorkerActionView<A>;

    open spec fn view(&self) -> WorkerActionView<A> {
        match self {
            WorkerAction::CheckTerminated => WorkerActionView::CheckTerminated,
            WorkerAction::Analyse { block, pairs } => WorkerActionView::Analyse {
                block: block@,
                pairs: pairs@,
            },
            WorkerAction::Broadcast(data) => WorkerActionView::Broadcast(data@),
            WorkerAction::Encode(audio) => WorkerActionView::Encode(audio@),
            WorkerAction::PollCommand => WorkerActionView::PollCommand,
            WorkerAction::Retune(frequency) => WorkerActionView::Retune(*frequency),
            WorkerAction::Read => WorkerActionView::Read,
            WorkerAction::Close => WorkerActionView::Close,
        }
    }
}

/// The receiver's work cycle. It is told what it waits for, and says what to do next.
pub struct SdrWorker<A> {
    awaiting: Awaiting,
    incoming_samples: Vec<IqSample>,
    demodulator: Demodulator<A>,
    inbox: Inbox,
}

/// A [`SdrWorker`] as a value.
pub struct WorkerView<A> {
    pub awaiting: Awaiting,
    /// The samples that have not been analysed yet, oldest first.
    pub incoming: Seq<IqSample>,
    /// The audio that has not been sent yet, oldest first.
    pub audio: Seq<A>,
}

impl<A> View for SdrWorker<A> {
    type V = WorkerView<A>;

    closed spec fn view(&self) -> WorkerView<A> {
        WorkerView {
            awaiting: self.awaiting,
            incoming: self.incoming_samples@,
            audio: self.demodulator@,
        }
    }
}

impl<A> SdrWorker<A> {
    /// All looks into a channel of commands, in order.
    pub closed spec fn looks(&self) -> Seq<Look> {
        self.inbox.looks()
    }
}

impl<A> WorkerView<A> {
    /// The start: nothing is waiting, and the first thing to do is to find out whether to end.
    pub open spec fn start() -> WorkerView<A> {
        WorkerView { awaiting: Awaiting::Check, incoming: Seq::empty(), audio: Seq::empty() }
    }

    /// The same backlog, waiting for something else.
    pub open spec fn wait_for(self, awaiting: Awaiting) -> WorkerView<A> {
        WorkerView { awaiting, ..self }
    }

    /// Goes on with the audio: while there is enough for a message, take the oldest of it; else
    /// look for commands.
    pub open spec fn next_audio(self) -> (WorkerView<A>, WorkerActionView<A>) {
        if self.audio.len() >= AUDIO_CHUNK {
            (
                WorkerView {
                    awaiting: Awaiting::Encoding,
                    audio: self.audio.skip(AUDIO_CHUNK as int),
                    ..self
                },
                WorkerActionView::Encode(self.audio.take(AUDIO_CHUNK as int)),
            )
        } else {
            (self.wait_for(Awaiting::Command { newest: None }), WorkerActionView::PollCommand)
        }
    }

    /// Goes on with the samples: while there are enough for a block, take the oldest of them; else
    /// go on with the audio.
    pub open spec fn next_block(self) -> (WorkerView<A>, WorkerActionView<A>) {
        if self.incoming.len() >= FFT_LEN {
            let block = self.incoming.take(FFT_LEN as int);
            (
                WorkerView {
                    awaiting: Awaiting::Analysis,
                    incoming: self.incoming.skip(FFT_LEN as int),
                    ..self
                },
                WorkerActionView::Analyse { block, pairs: phase_pairs(block) },
            )
        } else {
            self.next_audio()
        }
    }

    /// What becomes of the cycle when it is told `event`, and what it wants done then; nothing if
    /// `event` is not what it waits for.
    pub open spec fn told(self, event: WorkerEventView<A>) -> Option<
        (WorkerView<A>, WorkerActionView<A>),
    > {
        match (self.awaiting, event) {
            (Awaiting::Check, WorkerEventView::Terminated(true)) => Some(
                (self.wait_for(Awaiting::Nothing), WorkerActionView::Close),
            ),
            (Awaiting::Check, WorkerEventView::Terminated(false)) => Some(self.next_block()),
            (Awaiting::Analysis, WorkerEventView::Analysed { bins, audio }) => Some(
                (
                    WorkerView {
                        awaiting: Awaiting::SpectrumSent,
                        audio: self.audio + audio,
                        ..self
                    },
                    WorkerActionView::Broadcast(DataView::Fft(bins)),
                ),
            ),
            (Awaiting::SpectrumSent, WorkerEventView::Sent) => Some(self.next_block()),
            (Awaiting::Encoding, WorkerEventView::Encoded(pcm)) => Some(
                (
                    self.wait_for(Awaiting::AudioSent),
                    WorkerActionView::Broadcast(DataView::Audio(pcm_bytes(pcm))),
                ),
            ),
            (Awaiting::AudioSent, WorkerEventView::Sent) => Some(self.next_audio()),
            (
                Awaiting::Command { .. },
                WorkerEventView::Command(Some(SdrCommand::ChangeFrequency { frequency })),
            ) => Some(
                (
                    self.wait_for(Awaiting::Command { newest: Some(frequency) }),
                    WorkerActionView::PollCommand,
                ),
            ),
            (
                Awaiting::Command { newest: Some(frequency) },
                WorkerEventView::Command(None),
            ) => Some((self.wait_for(Awaiting::Retuning), WorkerActionView::Retune(frequency))),
            (Awaiting::Command { newest: None }, WorkerEventView::Command(None)) => Some(
                (self.wait_for(Awaiting::Bytes), WorkerActionView::Read),
            ),
            (Awaiting::Retuning, WorkerEventView::Retuned) => Some(
                (self.wait_for(Awaiting::Bytes), WorkerActionView::Read),
            ),
            (Awaiting::Bytes, WorkerEventView::Bytes(bytes)) => Some(
                (
                    WorkerView {
                        awaiting: Awaiting::Check,
                        incoming: self.incoming + samples_of(bytes),
                        ..self
                    },
                    WorkerActionView::CheckTerminated,
                ),
            ),
            _ => None,
        }
    }
}

/// An action that may be wanted, as a value.
pub open spec fn wanted<A>(action: Option<WorkerAction<A>>) -> Option<WorkerActionView<A>> {
    match action {
        Some(action) => Some(action@),
        None => None,
    }
}

/// From `before` to `after` the cycle was told `event`, and wants `action` done. An event that it
/// does not wait for changes nothing.
pub open spec fn stepped<A>(
    before: WorkerView<A>,
    event: WorkerEventView<A>,
    after: WorkerView<A>,
    action: Option<WorkerActionView<A>>,
) -> bool {
    match before.told(event) {
        Some((state, wanted)) => after == state && action == Some(wanted),
        None => after == before && action is None,
    }
}

/// From `before` to `after` the cycle was asked to look into the channel behind `rx`, and wants
/// `action` done. If it waits for a command, it looks once and is told what came out; else it does
/// not look, and nothing changes.
pub open spec fn polled<A>(
    before: SdrWorker<A>,
    rx: &Receiver<SdrCommand>,
    after: SdrWorker<A>,
    action: Option<WorkerActionView<A>>,
) -> bool {
    if before@.awaiting is Command {
        &&& after.looks().len() == before.looks().len() + 1
        &&& after.looks().drop_last() == before.looks()
        &&& after.looks().last().channel == *rx
        &&& stepped(
            before@,
            WorkerEventView::Command(command_in(after.looks().last().received)),
            after@,
            action,
        )
    } else {
        &&& after.looks() == before.looks()
        &&& after@ == before@
        &&& action is None
    }
}

/// Events and actions are the values that they carry.
pub proof fn law_worker_values<A>(event: WorkerEvent<A>, action: WorkerAction<A>)
    ensures
        match event {
            WorkerEvent::Terminated(terminated) => event@ == WorkerEventView::<A>::Terminated(
                terminated,
            ),
            WorkerEvent::Analysed { bins, audio } => event@ == (WorkerEventView::Analysed {
                bins: bins@,
                audio: audio@,
            }),
            WorkerEvent::Sent => event@ is Sent,
            WorkerEvent::Encoded(pcm) => event@ == WorkerEventView::<A>::Encoded(pcm@),
            WorkerEvent::Command(command) => event@ == WorkerEventView::<A>::Command(command),
            WorkerEvent::Retuned => event@ is Retuned,
            WorkerEvent::Bytes(bytes) => event@ == WorkerEventView::<A>::Bytes(bytes@),
        },
        match action {
            WorkerAction::CheckTerminated => action@ is CheckTerminated,
            WorkerAction::Analyse { block, pairs } => action@ == (WorkerActionView::<A>::Analyse {
                block: block@,
                pairs: pairs@,
            }),
            WorkerAction::Broadcast(data) => action@ == WorkerActionView::<A>::Broadcast(data@),
            WorkerAction::Encode(audio) => action@ == WorkerActionView::Encode(audio@),
            WorkerAction::PollCommand => action@ is PollCommand,
            WorkerAction::Retune(frequency) => action@ == WorkerActionView::<A>::Retune(frequency),
            WorkerAction::Read => action@ is Read,
            WorkerAction::Close => action@ is Close,
        },
        wanted(Some(action)) == Some(action@),
        wanted::<A>(None) is None,
{
}

impl<A> SdrWorker<A> {
    /// A cycle at its start: the first thing to do is to find out whether to end.
    pub fn new() -> (worker: Self)
        ensures
            worker@ == WorkerView::<A>::start(),
            worker.looks() == Seq::<Look>::empty(),
    {
        SdrWorker {
            awaiting: Awaiting::Check,
            incoming_samples: Vec::new(),
            demodulator: Demodulator::new(),
            inbox: Inbox::new(),
        }
    }

    fn next_audio(&mut self) -> (action: WorkerAction<A>)
        ensures
            (final(self)@, action@) == old(self)@.next_audio(),
            final(self).looks() == old(self).looks(),
    {
        match self.demodulator.pull_audio(AUDIO_CHUNK) {
            Some(audio) => {
                self.awaiting = Awaiting::Encoding;
                WorkerAction::Encode(audio)
            },
            None => {
                self.awaiting = Awaiting::Command { newest: None };
                WorkerAction::PollCommand
            },
        }
    }

    fn next_block(&mut self) -> (action: WorkerAction<A>)
        ensures
            (final(self)@, action@) == old(self)@.next_block(),
            final(self).looks() == old(self).looks(),
    {
        if self.incoming_samples.len() >= FFT_LEN {
            let mut block = self.incoming_samples.split_off(FFT_LEN);
            std::mem::swap(&mut block, &mut self.incoming_samples);
            let pairs = discriminator_pairs(block.as_slice());
            self.awaiting = Awaiting::Analysis;
            WorkerAction::Analyse { block, pairs }
        } else {
            self.next_audio()
        }
    }

    fn next_command(&mut self, newest: Option<u32>, command: Option<SdrCommand>) -> (action:
        WorkerAction<A>)
        requires
            old(self)@.awaiting == (Awaiting::Command { newest }),
        ensures
            stepped(
                old(self)@,
                WorkerEventView::Command(command),
                final(self)@,
                Some(action@),
            ),
            final(self).looks() == old(self).looks(),
        opens_invariants none
    {
        match command {
            Some(SdrCommand::ChangeFrequency { frequency }) => {
                self.awaiting = Awaiting::Command { newest: Some(frequency) };
                WorkerAction::PollCommand
            },
            None => match newest {
                Some(frequency) => {
                    self.awaiting = Awaiting::Retuning;
                    WorkerAction::Retune(frequency)
                },
                None => {
                    self.awaiting = Awaiting::Bytes;
                    WorkerAction::Read
                },
            },
        }
    }

    /// Tells the cycle what it waits for; returns what to do next. An event that it does not wait
    /// for changes nothing.
    pub fn step(&mut self, event: WorkerEvent<A>) -> (action: Option<WorkerAction<A>>)
        ensures
            stepped(old(self)@, event@, final(self)@, wanted(action)),
            final(self).looks() == old(self).looks(),
    {
        match (self.awaiting, event) {
            (Awaiting::Check, WorkerEvent::Terminated(terminated)) => {
                if terminated {
                    self.awaiting = Awaiting::Nothing;
                    Some(WorkerAction::Close)
                } else {
                    Some(self.next_block())
                }
            },
            (Awaiting::Analysis, WorkerEvent::Analysed { bins, audio }) => {
                self.demodulator.push_audio(audio);
                self.awaiting = Awaiting::SpectrumSent;
                Some(WorkerAction::Broadcast(Data::fft(bins)))
            },
            (Awaiting::SpectrumSent, WorkerEvent::Sent) => Some(self.next_block()),
            (Awaiting::Encoding, WorkerEvent::Encoded(pcm)) => {
                self.awaiting = Awaiting::AudioSent;
                Some(WorkerAction::Broadcast(Data::audio(pcm.as_slice())))
            },
            (Awaiting::AudioSent, WorkerEvent::Sent) => Some(self.next_audio()),
            (Awaiting::Command { newest }, WorkerEvent::Command(command)) => Some(
                self.next_command(newest, command),
            ),
            (Awaiting::Retuning, WorkerEvent::Retuned) => {
                self.awaiting = Awaiting::Bytes;
                Some(WorkerAction::Read)
            },
            (Awaiting::Bytes, WorkerEvent::Bytes(bytes)) => {
                let mut samples = decode_samples(bytes.as_slice());
                self.incoming_samples.append(&mut samples);
                self.awaiting = Awaiting::Check;
                Some(WorkerAction::CheckTerminated)
            },
            _ => None,
        }
    }

    /// Looks for a command and tells the cycle of it, or that there is none; returns what to do
    /// next. The channel is looked into once, and the cycle is told what came out. A cycle that does
    /// not wait for a command leaves the commands alone.
    pub fn poll_command(&mut self, rx: &Receiver<SdrCommand>) -> (action: Option<WorkerAction<A>>)
        ensures
            old(self)@.awaiting is Command ==> action is Some && exists|
                received: Result<SdrCommand, TryRecvError>,
            |
                #[trigger] may_receive(rx, received) && stepped(
                    old(self)@,
                    WorkerEventView::Command(command_in(received)),
                    final(self)@,
                    wanted(action),
                ) && final(self).looks() == old(self).looks().push(
                    Look { channel: *rx, received },
                ),
            !(old(self)@.awaiting is Command) ==> action is None && final(self)@ == old(self)@
                && final(self).looks() == old(self).looks(),
            polled(*old(self), rx, *final(self), wanted(action)),
        opens_invariants none
    {
        match self.awaiting {
            Awaiting::Command { newest } => {
                let received = try_recv(&mut self.inbox, rx);
                assert(may_receive(rx, received));
                assert(self.looks().drop_last() =~= old(self).looks());
                let command = match received {
                    Ok(command) => Some(command),
                    Err(_) => None,
                };
                Some(self.next_command(newest, command))
            },
            _ => None,
        }
    }
}

} // verus!
