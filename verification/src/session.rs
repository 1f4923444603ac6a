//! One client's connection: what is done with what comes in and what goes out.
use bytes::Bytes;
use vstd::prelude::*;

use crate::payload::Data;
use crate::payload::DataView;
use crate::payload::audio_frame;
use crate::payload::contents;
use crate::payload::fft_frame;
use crate::radio::AUDIO_CHUNK;
use crate::radio::AUDIO_RATE;
use crate::report::law_report_readable;
use crate::report::report_text;
use crate::report::spelled;
use crate::report::text_of;

verus! {

/// How many commands wait for the receiver at most.
pub const COMMAND_CAPACITY: usize = 4;

/// How many reports wait for one client at most.
pub const STATS_CAPACITY: usize = 1;

/// How many pieces of spectrum or audio data, or frames, wait for one client at most.
pub const FRAME_CAPACITY: usize = 10;

/// The time between two audio frames, in milliseconds.
pub const AUDIO_PACE_MILLIS: u64 = 20;

/// What a client can ask of the receiver.
#[derive(Clone, Copy, Debug, PartialEq, Eq, Structural)]
pub enum SdrCommand {
    ChangeFrequency { frequency: u32 },
}

/// What a client is told about the receiver.
#[derive(Clone, Copy, Debug, PartialEq, Eq, Structural)]
pub enum Stats {
    Frequency(u32),
}

/// What the client's side of the connection delivered.
pub enum ClientMessage {
    /// A text, and the command that it spells, if it spells one.
    Text(Option<SdrCommand>),
    /// A message of any other kind.
    Other,
    /// The connection failed.
    Failed,
    /// There is nothing more to come.
    Closed,
}

/// What is done about a client's message.
#[derive(Clone, Copy, Debug, PartialEq, Eq, Structural)]
pub enum CommandAction {
    /// Report `stats` to the client and hand `command` to the receiver.
    Apply { stats: Stats, command: SdrCommand },
    /// Wait for the next message.
    Ignore,
    /// Stop listening.
    Stop,
}

/// Something that is passed on because of a client's message.
#[derive(Clone, Copy, Debug, PartialEq, Eq, Structural)]
pub enum CommandSend {
    /// A report for the client.
    Report(Stats),
    /// A command for the receiver.
    Command(SdrCommand),
}

/// What is passed on, in this order: the report goes before the command.
pub open spec fn sends_of(action: CommandAction) -> Seq<CommandSend> {
    match action {
        CommandAction::Apply { stats, command } => seq![
            CommandSend::Report(stats),
            CommandSend::Command(command),
        ],
        CommandAction::Ignore | CommandAction::Stop => seq![],
    }
}

impl CommandAction {
    /// What has to be passed on, one after the other.
    pub fn sends(self) -> (sends: Vec<CommandSend>)
        ensures
            sends@ == sends_of(self),
    {
        let mut sends: Vec<CommandSend> = Vec::new();
        if let CommandAction::Apply { stats, command } = self {
            sends.push(CommandSend::Report(stats));
            sends.push(CommandSend::Command(command));
        }
        sends
    }
}

/// What is done about `message`.
pub open spec fn command_action(message: ClientMessage) -> CommandAction {
    match message {
        ClientMessage::Text(Some(SdrCommand::ChangeFrequency { frequency })) => {
            CommandAction::Apply {
                stats: Stats::Frequency(frequency),
                command: SdrCommand::ChangeFrequency { frequency },
            }
        },
        ClientMessage::Text(None) | ClientMessage::Other => CommandAction::Ignore,
        ClientMessage::Failed | ClientMessage::Closed => CommandAction::Stop,
    }
}

/// Decides what to do about a client's message.
pub fn handle_commands(message: ClientMessage) -> (action: CommandAction)
    ensures
        action == command_action(message),
{
    match message {
        ClientMessage::Text(Some(command)) => match command {
            SdrCommand::ChangeFrequency { frequency } => CommandAction::Apply {
                stats: Stats::Frequency(frequency),
                command,
            },
        },
        ClientMessage::Text(None) => CommandAction::Ignore,
        ClientMessage::Other => CommandAction::Ignore,
        ClientMessage::Failed => CommandAction::Stop,
        ClientMessage::Closed => CommandAction::Stop,
    }
}

/// The frequency to change to after a run of commands: the last one asked for.
pub open spec fn newest_frequency(commands: Seq<SdrCommand>) -> Option<u32> {
    if commands.len() == 0 {
        None
    } else {
        match commands.last() {
            SdrCommand::ChangeFrequency { frequency } => Some(frequency),
        }
    }
}

/// What happens on the sending side of a connection.
pub enum SessionEvent {
    /// A report to send, or nothing once there are no more.
    Stats(Option<Stats>),
    /// A frame to send.
    Frame(Vec<u8>),
    /// Data from the receiver.
    Data(Data),
    /// The last action was carried out.
    Done,
    /// The last action could not be carried out.
    Failed,
}

/// What is done on the sending side of a connection.
pub enum SessionAction {
    /// Wait for a report, a frame or data, in this order of preference.
    Wait,
    /// Send the text of a report.
    SendText(String),
    /// Send a frame.
    SendBinary(Vec<u8>),
    /// Queue spectrum data for framing.
    QueueFft(Bytes),
    /// Queue audio data for framing.
    QueueAudio(Bytes),
    /// Stop sending.
    Stop,
}

/// A [`SessionEvent`] as a value.
pub enum SessionEventView {
    Stats(Option<Stats>),
    Frame(Seq<u8>),
    Data(DataView),
    Done,
    Failed,
}

/// A [`SessionAction`] as a value.
pub enum SessionActionView {
    Wait,
    SendText(Seq<char>),
    SendBinary(Seq<u8>),
    QueueFft(Seq<u8>),
    QueueAudio(Seq<u8>),
    Stop,
}

impl View for SessionEvent {
    type V = SessionEventView;

    open spec fn view(&self) -> SessionEventView {
        match self {
            SessionEvent::Stats(stats) => SessionEventView::Stats(*stats),
            SessionEvent::Frame(frame) => SessionEventView::Frame(frame@),
            SessionEvent::Data(data) => SessionEventView::Data(data@),
            SessionEvent::Done => SessionEventView::Done,
            SessionEvent::Failed => SessionEventView::Failed,
        }
    }
}

impl View for SessionAction {
    type V = SessionActionView;

    open spec fn view(&self) -> SessionActionView {
        match self {
            SessionAction::Wait => SessionActionView::Wait,
            SessionAction::SendText(text) => SessionActionView::SendText(text@),
            SessionAction::SendBinary(frame) => SessionActionView::SendBinary(frame@),
            SessionAction::QueueFft(fft) => SessionActionView::QueueFft(contents(*fft)),
            SessionAction::QueueAudio(audio) => SessionActionView::QueueAudio(contents(*audio)),
            SessionAction::Stop => SessionActionView::Stop,
        }
    }
}

/// What is done about `event`.
pub open spec fn session_action(event: SessionEventView) -> SessionActionView {
    match event {
        SessionEventView::Stats(Some(stats)) => SessionActionView::SendText(text_of(stats)),
        SessionEventView::Stats(None) => SessionActionView::Stop,
        SessionEventView::Frame(frame) => SessionActionView::SendBinary(frame),
        SessionEventView::Data(DataView::Fft(fft)) => SessionActionView::QueueFft(fft),
        SessionEventView::Data(DataView::Audio(audio)) => SessionActionView::QueueAudio(audio),
        SessionEventView::Done => SessionActionView::Wait,
        SessionEventView::Failed => SessionActionView::Stop,
    }
}

/// Decides what to do on the sending side of a connection.
pub fn handle_data(event: SessionEvent) -> (action: SessionAction)
    ensures
        action@ == session_action(event@),
{
    match event {
        SessionEvent::Stats(Some(stats)) => SessionAction::SendText(report_text(stats)),
        SessionEvent::Stats(None) => SessionAction::Stop,
        SessionEvent::Frame(frame) => SessionAction::SendBinary(frame),
        SessionEvent::Data(data) => match data {
            Data::Fft(fft) => SessionAction::QueueFft(fft),
            Data::Audio(audio) => SessionAction::QueueAudio(audio),
        },
        SessionEvent::Done => SessionAction::Wait,
        SessionEvent::Failed => SessionAction::Stop,
    }
}

/// What happens to a task that turns queued data into frames.
pub enum ForwardEvent {
    /// Data to put into a frame.
    Queued(Bytes),
    /// The queue is closed.
    Closed,
    /// The last frame was passed on.
    Sent,
    /// The last frame could not be passed on.
    Refused,
    /// It is time for the next frame.
    Paced,
}

/// What is done by a task that turns queued data into frames.
pub enum ForwardAction {
    /// Wait for queued data.
    Wait,
    /// Pass on a frame.
    Send(Vec<u8>),
    /// Wait until it is time for the next frame.
    Pace,
    /// End the task.
    Stop,
}

/// A [`ForwardEvent`] as a value.
pub enum ForwardEventView {
    Queued(Seq<u8>),
    Closed,
    Sent,
    Refused,
    Paced,
}

/// A [`ForwardAction`] as a value.
pub enum ForwardActionView {
    Wait,
    Send(Seq<u8>),
    Pace,
    Stop,
}

impl View for ForwardEvent {
    type V = ForwardEventView;

    open spec fn view(&self) -> ForwardEventView {
        match self {
            ForwardEvent::Queued(payload) => ForwardEventView::Queued(contents(*payload)),
            ForwardEvent::Closed => ForwardEventView::Closed,
            ForwardEvent::Sent => ForwardEventView::Sent,
            ForwardEvent::Refused => ForwardEventView::Refused,
            ForwardEvent::Paced => ForwardEventView::Paced,
        }
    }
}

impl View for ForwardAction {
    type V = ForwardActionView;

    open spec fn view(&self) -> ForwardActionView {
        match self {
            ForwardAction::Wait => ForwardActionView::Wait,
            ForwardAction::Send(frame) => ForwardActionView::Send(frame@),
            ForwardAction::Pace => ForwardActionView::Pace,
            ForwardAction::Stop => ForwardActionView::Stop,
        }
    }
}

/// What the audio task does about `event`: it paces its frames, and gives up when one is refused.
pub open spec fn audio_action(event: ForwardEventView) -> ForwardActionView {
    match event {
        ForwardEventView::Queued(audio) => ForwardActionView::Send(DataView::Audio(audio).frame()),
        ForwardEventView::Closed => ForwardActionView::Stop,
        ForwardEventView::Sent => ForwardActionView::Pace,
        ForwardEventView::Refused => ForwardActionView::Stop,
        ForwardEventView::Paced => ForwardActionView::Wait,
    }
}

/// What the spectrum task does about `event`: it goes on as long as there is data, whether its
/// frames are taken or not.
pub open spec fn fft_action(event: ForwardEventView) -> ForwardActionView {
    match event {
        ForwardEventView::Queued(fft) => ForwardActionView::Send(DataView::Fft(fft).frame()),
        ForwardEventView::Closed => ForwardActionView::Stop,
        ForwardEventView::Sent | ForwardEventView::Refused | ForwardEventView::Paced => {
            ForwardActionView::Wait
        },
    }
}

/// Decides what the audio task does.
pub fn forward_audio(event: ForwardEvent) -> (action: ForwardAction)
    ensures
        action@ == audio_action(event@),
{
    match event {
        ForwardEvent::Queued(audio) => ForwardAction::Send(audio_frame(&audio)),
        ForwardEvent::Closed => ForwardAction::Stop,
        ForwardEvent::Sent => ForwardAction::Pace,
        ForwardEvent::Refused => ForwardAction::Stop,
        ForwardEvent::Paced => ForwardAction::Wait,
    }
}

/// Decides what the spectrum task does.
pub fn forward_fft(event: ForwardEvent) -> (action: ForwardAction)
    ensures
        action@ == fft_action(event@),
{
    match event {
        ForwardEvent::Queued(fft) => ForwardAction::Send(fft_frame(&fft)),
        ForwardEvent::Closed => ForwardAction::Stop,
        ForwardEvent::Sent => ForwardAction::Wait,
        ForwardEvent::Refused => ForwardAction::Wait,
        ForwardEvent::Paced => ForwardAction::Wait,
    }
}

/// Data from the receiver reaches the client as its frame: the session queues it for the task of
/// its kind, that task makes the frame, and the session sends the frame as it is.
pub proof fn law_data_reaches_client(data: DataView)
    ensures
        match data {
            DataView::Fft(fft) => {
                &&& session_action(SessionEventView::Data(data)) == SessionActionView::QueueFft(fft)
                &&& fft_action(ForwardEventView::Queued(fft)) == ForwardActionView::Send(
                    data.frame(),
                )
            },
            DataView::Audio(audio) => {
                &&& session_action(SessionEventView::Data(data)) == SessionActionView::QueueAudio(
                    audio,
                )
                &&& audio_action(ForwardEventView::Queued(audio)) == ForwardActionView::Send(
                    data.frame(),
                )
            },
        },
        session_action(SessionEventView::Frame(data.frame())) == SessionActionView::SendBinary(
            data.frame(),
        ),
{
}

/// A message that asks for a frequency has exactly two things passed on: first a report of that
/// frequency, and then the command for it. Any other message has nothing passed on. Listening goes
/// on until the connection has failed or there is nothing more to come.
pub proof fn law_message_passed_on(message: ClientMessage)
    ensures
        match message {
            ClientMessage::Text(Some(SdrCommand::ChangeFrequency { frequency })) => {
                let sends = sends_of(command_action(message));
                &&& sends.len() == 2
                &&& sends[0] == CommandSend::Report(Stats::Frequency(frequency))
                &&& sends[1] == CommandSend::Command(SdrCommand::ChangeFrequency { frequency })
            },
            _ => sends_of(command_action(message)).len() == 0,
        },
        command_action(message) is Stop <==> message is Failed || message is Closed,
{
}

/// Whatever is to be applied is passed on, the report before the command; otherwise there is
/// nothing to pass on.
pub proof fn law_applied_means_passed_on(action: CommandAction)
    ensures
        sends_of(action).len() == if action is Apply {
            2nat
        } else {
            0
        },
        action is Apply ==> sends_of(action)[0] == CommandSend::Report(action->stats),
        action is Apply ==> sends_of(action)[1] == CommandSend::Command(action->command),
{
}

/// A report is sent as a text that spells its frequency. Sending stops when there are no more
/// reports or something could not be carried out, and for no other reason; after something has been
/// carried out, the session waits.
pub proof fn law_session_reports_and_stops(event: SessionEventView, frequency: u32)
    ensures
        session_action(SessionEventView::Stats(Some(Stats::Frequency(frequency)))) matches
            SessionActionView::SendText(text) && spelled(text) == frequency,
        session_action(event) is Stop <==> event is Failed || event == SessionEventView::Stats(
            None,
        ),
        session_action(event) is Wait <==> event is Done,
{
    law_report_readable(frequency);
}

/// The audio task hands on audio as fast as it is played: a message lasts as long as the time
/// between two frames. Up to four commands, one report and ten frames can wait.
pub proof fn law_pace_and_queues()
    ensures
        AUDIO_CHUNK * 1000 == AUDIO_RATE * AUDIO_PACE_MILLIS,
        COMMAND_CAPACITY == 4,
        STATS_CAPACITY == 1,
        FRAME_CAPACITY == 10,
{
}

/// Both framing tasks go on until their queue is closed; the audio task also ends when a frame is
/// refused, and waits for its time after each frame that was passed on.
pub proof fn law_tasks_go_on(event: ForwardEventView)
    ensures
        fft_action(event) is Stop <==> event is Closed,
        fft_action(event) is Send <==> event is Queued,
        !(fft_action(event) is Pace),
        audio_action(event) is Stop <==> event is Closed || event is Refused,
        audio_action(event) is Send <==> event is Queued,
        audio_action(event) is Pace <==> event is Sent,
{
}

/// Events and actions of the sending side are the values that they carry.
pub proof fn law_session_values(event: SessionEvent, action: SessionAction)
    ensures
        match event {
            SessionEvent::Stats(stats) => event@ == SessionEventView::Stats(stats),
            SessionEvent::Frame(frame) => event@ == SessionEventView::Frame(frame@),
            SessionEvent::Data(data) => event@ == SessionEventView::Data(data@),
            SessionEvent::Done => event@ is Done,
            SessionEvent::Failed => event@ is Failed,
        },
        match action {
            SessionAction::Wait => action@ is Wait,
            SessionAction::SendText(text) => action@ == SessionActionView::SendText(text@),
            SessionAction::SendBinary(frame) => action@ == SessionActionView::SendBinary(frame@),
            SessionAction::QueueFft(fft) => action@ == SessionActionView::QueueFft(contents(fft)),
            SessionAction::QueueAudio(audio) => action@ == SessionActionView::QueueAudio(
                contents(audio),
            ),
            SessionAction::Stop => action@ is Stop,
        },
{
}

/// Events and actions of the framing tasks are the values that they carry.
pub proof fn law_forward_values(event: ForwardEvent, action: ForwardAction)
    ensures
        match event {
            ForwardEvent::Queued(payload) => event@ == ForwardEventView::Queued(contents(payload)),
            ForwardEvent::Closed => event@ is Closed,
            ForwardEvent::Sent => event@ is Sent,
            ForwardEvent::Refused => event@ is Refused,
            ForwardEvent::Paced => event@ is Paced,
        },
        match action {
            ForwardAction::Wait => action@ is Wait,
            ForwardAction::Send(frame) => action@ == ForwardActionView::Send(frame@),
            ForwardAction::Pace => action@ is Pace,
            ForwardAction::Stop => action@ is Stop,
        },
{
}

/// A client that asks for a frequency is told that frequency, and the receiver gets the command;
/// a message that spells no command has no effect.
pub proof fn law_command_reported(message: ClientMessage)
    ensures
        match command_action(message) {
            CommandAction::Apply { stats, command } => {
                &&& message == ClientMessage::Text(Some(command))
                &&& newest_frequency(seq![command]) == Some(stats->Frequency_0)
                &&& session_action(SessionEventView::Stats(Some(stats)))
                    == SessionActionView::SendText(text_of(stats))
            },
            CommandAction::Ignore | CommandAction::Stop => !(message matches ClientMessage::Text(
                Some(_),
            )),
        },
{
}

} // verus!
