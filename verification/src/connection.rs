//! What holds of one client's connection over any number of events.
use vstd::prelude::*;

use crate::payload::AUDIO_TAG;
use crate::payload::DataView;
use crate::payload::FFT_TAG;
use crate::report::text_of;
use crate::session::ClientMessage;
use crate::session::CommandSend;
use crate::session::ForwardActionView;
use crate::session::ForwardEventView;
use crate::session::SdrCommand;
use crate::session::SessionActionView;
use crate::session::SessionEventView;
use crate::session::Stats;
use crate::session::audio_action;
use crate::session::command_action;
use crate::session::fft_action;
use crate::session::sends_of;
use crate::session::session_action;

verus! {

/// The connection's listening side has ended: one of `messages` was a reason to stop.
pub open spec fn listening_over(messages: Seq<ClientMessage>) -> bool {
    exists|k: int| 0 <= k < messages.len() && #[trigger] command_action(messages[k]) is Stop
}

/// The connection's sending side has ended: one of `events` was a reason to stop.
pub open spec fn session_over(events: Seq<SessionEventView>) -> bool {
    exists|k: int| 0 <= k < events.len() && #[trigger] session_action(events[k]) is Stop
}

/// The spectrum task has ended: one of `events` was a reason to stop.
pub open spec fn fft_over(events: Seq<ForwardEventView>) -> bool {
    exists|k: int| 0 <= k < events.len() && #[trigger] fft_action(events[k]) is Stop
}

/// The audio task has ended: one of `events` was a reason to stop.
pub open spec fn audio_over(events: Seq<ForwardEventView>) -> bool {
    exists|k: int| 0 <= k < events.len() && #[trigger] audio_action(events[k]) is Stop
}

/// All that is passed on because of `messages`, in order, until listening ends.
pub open spec fn all_sends(messages: Seq<ClientMessage>) -> Seq<CommandSend>
    decreases messages.len(),
{
    if messages.len() == 0 {
        Seq::empty()
    } else if listening_over(messages.drop_last()) {
        all_sends(messages.drop_last())
    } else {
        all_sends(messages.drop_last()) + sends_of(command_action(messages.last()))
    }
}

/// The reports among what is passed on.
pub open spec fn reports(sends: Seq<CommandSend>) -> Seq<Stats>
    decreases sends.len(),
{
    if sends.len() == 0 {
        Seq::empty()
    } else {
        match sends.last() {
            CommandSend::Report(stats) => reports(sends.drop_last()).push(stats),
            CommandSend::Command(_) => reports(sends.drop_last()),
        }
    }
}

/// The commands among what is passed on.
pub open spec fn commands(sends: Seq<CommandSend>) -> Seq<SdrCommand>
    decreases sends.len(),
{
    if sends.len() == 0 {
        Seq::empty()
    } else {
        match sends.last() {
            CommandSend::Report(_) => commands(sends.drop_last()),
            CommandSend::Command(command) => commands(sends.drop_last()).push(command),
        }
    }
}

/// What is passed on alternates: a report of a frequency, then the command for that frequency.
spec fn alternating(sends: Seq<CommandSend>) -> bool {
    &&& sends.len() % 2 == 0
    &&& forall|k: int|
        #![trigger sends[2 * k]]
        0 <= 2 * k < sends.len() ==> {
            &&& sends[2 * k] matches CommandSend::Report(Stats::Frequency(frequency))
            &&& sends[2 * k + 1] == CommandSend::Command(SdrCommand::ChangeFrequency { frequency })
        }
}

proof fn lemma_sends_alternate(messages: Seq<ClientMessage>)
    ensures
        alternating(all_sends(messages)),
    decreases messages.len(),
{
    if messages.len() > 0 {
        lemma_sends_alternate(messages.drop_last());
        let before = all_sends(messages.drop_last());
        let added = if listening_over(messages.drop_last()) {
            seq![]
        } else {
            sends_of(command_action(messages.last()))
        };
        let sends = all_sends(messages);
        assert(sends =~= before + added);
        assert(added.len() == 0 || added.len() == 2);
        assert forall|k: int| #![trigger sends[2 * k]] 0 <= 2 * k < sends.len() implies {
            &&& sends[2 * k] matches CommandSend::Report(Stats::Frequency(frequency))
            &&& sends[2 * k + 1] == CommandSend::Command(SdrCommand::ChangeFrequency { frequency })
        } by {
            if 2 * k < before.len() {
                assert(sends[2 * k] == before[2 * k]);
                assert(sends[2 * k + 1] == before[2 * k + 1]);
            } else {
                assert(sends[2 * k] == added[0]);
                assert(sends[2 * k + 1] == added[1]);
            }
        }
    }
}

proof fn lemma_alternating_split(sends: Seq<CommandSend>, n: int)
    requires
        alternating(sends),
        0 <= n <= sends.len(),
    ensures
        reports(sends.take(n)).len() == (n + 1) / 2,
        commands(sends.take(n)).len() == n / 2,
        forall|i: int|
            0 <= i < (n + 1) / 2 ==> CommandSend::Report(#[trigger] reports(sends.take(n))[i])
                == sends[2 * i],
        forall|i: int|
            0 <= i < n / 2 ==> CommandSend::Command(#[trigger] commands(sends.take(n))[i])
                == sends[2 * i + 1],
    decreases n,
{
    if n > 0 {
        lemma_alternating_split(sends, n - 1);
        assert(sends.take(n).drop_last() =~= sends.take(n - 1));
        let k = (n - 1) / 2;
        assert(sends[2 * k] is Report);
        if n % 2 == 1 {
            assert(sends.take(n).last() == sends[2 * k]);
        } else {
            assert(sends.take(n).last() == sends[2 * k + 1]);
        }
    }
}

/// A command is announced to the client before the receiver gets it: at any moment, after `n`
/// sends, there are as many reports as commands or one more, and each command is for the frequency
/// that the report with the same place announced.
pub proof fn law_report_before_command(messages: Seq<ClientMessage>, n: int)
    requires
        0 <= n <= all_sends(messages).len(),
    ensures
        ({
            let reports = reports(all_sends(messages).take(n));
            let commands = commands(all_sends(messages).take(n));
            &&& commands.len() <= reports.len() <= commands.len() + 1
            &&& forall|i: int|
                0 <= i < commands.len() ==> #[trigger] commands[i] == (
                SdrCommand::ChangeFrequency { frequency: reports[i]->Frequency_0 })
        }),
{
    let sends = all_sends(messages);
    lemma_sends_alternate(messages);
    lemma_alternating_split(sends, n);
    assert forall|i: int| 0 <= i < commands(sends.take(n)).len() implies #[trigger] commands(
        sends.take(n),
    )[i] == (SdrCommand::ChangeFrequency {
        frequency: reports(sends.take(n))[i]->Frequency_0,
    }) by {
        assert(CommandSend::Report(reports(sends.take(n))[i]) == sends[2 * i]);
        assert(CommandSend::Command(commands(sends.take(n))[i]) == sends[2 * i + 1]);
    }
}

/// The frequencies that `messages` ask for, in order.
pub open spec fn asked_for(messages: Seq<ClientMessage>) -> Seq<u32>
    decreases messages.len(),
{
    if messages.len() == 0 {
        Seq::empty()
    } else {
        match messages.last() {
            ClientMessage::Text(Some(SdrCommand::ChangeFrequency { frequency })) => asked_for(
                messages.drop_last(),
            ).push(frequency),
            _ => asked_for(messages.drop_last()),
        }
    }
}

/// Every command is passed on: of `messages`, the first `n` of which come before the connection
/// fails or closes, each that asks for a frequency has a report of it and a command for it passed
/// on, once each and in order, and there are no other reports and commands.
pub proof fn law_every_command_passed_on(messages: Seq<ClientMessage>, n: int)
    requires
        0 <= n <= messages.len(),
        forall|k: int|
            0 <= k < n ==> !(#[trigger] messages[k] is Failed) && !(messages[k] is Closed),
        n < messages.len() ==> messages[n] is Failed || messages[n] is Closed,
    ensures
        commands(all_sends(messages)) == asked_for(messages.take(n)).map_values(
            |frequency: u32| SdrCommand::ChangeFrequency { frequency },
        ),
        reports(all_sends(messages)) == asked_for(messages.take(n)).map_values(
            |frequency: u32| Stats::Frequency(frequency),
        ),
{
    let heard = messages.take(n);
    assert forall|k: int| 0 <= k < heard.len() implies !(#[trigger] heard[k] is Failed)
        && !(heard[k] is Closed) by {
        assert(heard[k] == messages[k]);
    }
    lemma_commands_passed_on(heard);
    if n < messages.len() {
        let ended = messages.take(n + 1);
        assert(ended.drop_last() =~= heard);
        assert(all_sends(ended) =~= all_sends(heard));
        assert(command_action(ended[n]) is Stop);
        law_listening_ends(ended, messages.skip(n + 1));
        assert(ended + messages.skip(n + 1) =~= messages);
    } else {
        assert(heard =~= messages);
    }
}

proof fn lemma_commands_passed_on(messages: Seq<ClientMessage>)
    requires
        forall|k: int|
            0 <= k < messages.len() ==> !(#[trigger] messages[k] is Failed) && !(
            messages[k] is Closed),
    ensures
        commands(all_sends(messages)) == asked_for(messages).map_values(
            |frequency: u32| SdrCommand::ChangeFrequency { frequency },
        ),
        reports(all_sends(messages)) == asked_for(messages).map_values(
            |frequency: u32| Stats::Frequency(frequency),
        ),
    decreases messages.len(),
{
    let command = |frequency: u32| SdrCommand::ChangeFrequency { frequency };
    let report = |frequency: u32| Stats::Frequency(frequency);
    if messages.len() == 0 {
        assert(asked_for(messages).map_values(command) =~= commands(all_sends(messages)));
        assert(asked_for(messages).map_values(report) =~= reports(all_sends(messages)));
    } else {
        let before = messages.drop_last();
        assert forall|k: int| 0 <= k < before.len() implies !(#[trigger] before[k] is Failed)
            && !(before[k] is Closed) && !(command_action(before[k]) is Stop) by {
            assert(before[k] == messages[k]);
        }
        lemma_commands_passed_on(before);
        assert(!listening_over(before));
        let sends = all_sends(messages);
        match messages.last() {
            ClientMessage::Text(Some(SdrCommand::ChangeFrequency { frequency })) => {
                let asked = asked_for(before);
                assert(sends.drop_last().drop_last() =~= all_sends(before));
                assert(sends.drop_last().last() == CommandSend::Report(report(frequency)));
                assert(sends.last() == CommandSend::Command(command(frequency)));
                assert(commands(sends.drop_last()) == commands(all_sends(before)));
                assert(reports(sends.drop_last()) == reports(all_sends(before)).push(
                    report(frequency),
                ));
                assert(asked.push(frequency).map_values(command) =~= asked.map_values(command).push(
                    command(frequency),
                ));
                assert(asked.push(frequency).map_values(report) =~= asked.map_values(report).push(
                    report(frequency),
                ));
            },
            _ => {
                assert(sends =~= all_sends(before));
            },
        }
    }
}

/// Once listening has ended, nothing more is passed on, whatever else would come.
pub proof fn law_listening_ends(messages: Seq<ClientMessage>, later: Seq<ClientMessage>)
    requires
        listening_over(messages),
    ensures
        all_sends(messages + later) == all_sends(messages),
    decreases later.len(),
{
    let all = messages + later;
    if later.len() == 0 {
        assert(all =~= messages);
    } else {
        law_listening_ends(messages, later.drop_last());
        let before = all.drop_last();
        assert(before =~= messages + later.drop_last());
        let k = choose|k: int|
            0 <= k < messages.len() && #[trigger] command_action(messages[k]) is Stop;
        assert(command_action(before[k]) is Stop);
    }
}

/// A message to the client.
pub enum SocketMessage {
    Text(Seq<char>),
    Binary(Seq<u8>),
}

/// The messages that the session hands to the socket, in order, until it ends.
pub open spec fn socket_messages(events: Seq<SessionEventView>) -> Seq<SocketMessage>
    decreases events.len(),
{
    if events.len() == 0 {
        Seq::empty()
    } else if session_over(events.drop_last()) {
        socket_messages(events.drop_last())
    } else {
        let before = socket_messages(events.drop_last());
        match session_action(events.last()) {
            SessionActionView::SendText(text) => before.push(SocketMessage::Text(text)),
            SessionActionView::SendBinary(frame) => before.push(SocketMessage::Binary(frame)),
            _ => before,
        }
    }
}

/// The binary messages among `messages`.
pub open spec fn binaries(messages: Seq<SocketMessage>) -> Seq<Seq<u8>>
    decreases messages.len(),
{
    if messages.len() == 0 {
        Seq::empty()
    } else {
        match messages.last() {
            SocketMessage::Binary(frame) => binaries(messages.drop_last()).push(frame),
            SocketMessage::Text(_) => binaries(messages.drop_last()),
        }
    }
}

/// The texts among `messages`.
pub open spec fn texts(messages: Seq<SocketMessage>) -> Seq<Seq<char>>
    decreases messages.len(),
{
    if messages.len() == 0 {
        Seq::empty()
    } else {
        match messages.last() {
            SocketMessage::Text(text) => texts(messages.drop_last()).push(text),
            SocketMessage::Binary(_) => texts(messages.drop_last()),
        }
    }
}

/// The payloads of the frames that begin with `tag`.
pub open spec fn payloads(frames: Seq<Seq<u8>>, tag: u8) -> Seq<Seq<u8>>
    decreases frames.len(),
{
    if frames.len() == 0 {
        Seq::empty()
    } else {
        let before = payloads(frames.drop_last(), tag);
        if frames.last().len() > 0 && frames.last()[0] == tag {
            before.push(frames.last().skip(1))
        } else {
            before
        }
    }
}

/// The frames that the session gets from the framing tasks, until it ends.
pub open spec fn frames_received(events: Seq<SessionEventView>) -> Seq<Seq<u8>>
    decreases events.len(),
{
    if events.len() == 0 {
        Seq::empty()
    } else if session_over(events.drop_last()) {
        frames_received(events.drop_last())
    } else {
        match events.last() {
            SessionEventView::Frame(frame) => frames_received(events.drop_last()).push(frame),
            _ => frames_received(events.drop_last()),
        }
    }
}

/// The reports that the session gets, until it ends.
pub open spec fn reports_received(events: Seq<SessionEventView>) -> Seq<Stats>
    decreases events.len(),
{
    if events.len() == 0 {
        Seq::empty()
    } else if session_over(events.drop_last()) {
        reports_received(events.drop_last())
    } else {
        match events.last() {
            SessionEventView::Stats(Some(stats)) => reports_received(events.drop_last()).push(
                stats,
            ),
            _ => reports_received(events.drop_last()),
        }
    }
}

/// The spectra that the session gets from the receiver, until it ends.
pub open spec fn fft_received(events: Seq<SessionEventView>) -> Seq<Seq<u8>>
    decreases events.len(),
{
    if events.len() == 0 {
        Seq::empty()
    } else if session_over(events.drop_last()) {
        fft_received(events.drop_last())
    } else {
        match events.last() {
            SessionEventView::Data(DataView::Fft(fft)) => fft_received(events.drop_last()).push(
                fft,
            ),
            _ => fft_received(events.drop_last()),
        }
    }
}

/// The audio that the session gets from the receiver, until it ends.
pub open spec fn audio_received(events: Seq<SessionEventView>) -> Seq<Seq<u8>>
    decreases events.len(),
{
    if events.len() == 0 {
        Seq::empty()
    } else if session_over(events.drop_last()) {
        audio_received(events.drop_last())
    } else {
        match events.last() {
            SessionEventView::Data(DataView::Audio(audio)) => audio_received(
                events.drop_last(),
            ).push(audio),
            _ => audio_received(events.drop_last()),
        }
    }
}

/// The spectra that the session queues for framing, until it ends.
pub open spec fn fft_queued(events: Seq<SessionEventView>) -> Seq<Seq<u8>>
    decreases events.len(),
{
    if events.len() == 0 {
        Seq::empty()
    } else if session_over(events.drop_last()) {
        fft_queued(events.drop_last())
    } else {
        match session_action(events.last()) {
            SessionActionView::QueueFft(fft) => fft_queued(events.drop_last()).push(fft),
            _ => fft_queued(events.drop_last()),
        }
    }
}

/// The audio that the session queues for framing, until it ends.
pub open spec fn audio_queued(events: Seq<SessionEventView>) -> Seq<Seq<u8>>
    decreases events.len(),
{
    if events.len() == 0 {
        Seq::empty()
    } else if session_over(events.drop_last()) {
        audio_queued(events.drop_last())
    } else {
        match session_action(events.last()) {
            SessionActionView::QueueAudio(audio) => audio_queued(events.drop_last()).push(audio),
            _ => audio_queued(events.drop_last()),
        }
    }
}

/// The payloads that the spectrum task takes from its queue, until it ends.
pub open spec fn fft_taken(events: Seq<ForwardEventView>) -> Seq<Seq<u8>>
    decreases events.len(),
{
    if events.len() == 0 {
        Seq::empty()
    } else if fft_over(events.drop_last()) {
        fft_taken(events.drop_last())
    } else {
        match events.last() {
            ForwardEventView::Queued(payload) => fft_taken(events.drop_last()).push(payload),
            _ => fft_taken(events.drop_last()),
        }
    }
}

/// The payloads that the audio task takes from its queue, until it ends.
pub open spec fn audio_taken(events: Seq<ForwardEventView>) -> Seq<Seq<u8>>
    decreases events.len(),
{
    if events.len() == 0 {
        Seq::empty()
    } else if audio_over(events.drop_last()) {
        audio_taken(events.drop_last())
    } else {
        match events.last() {
            ForwardEventView::Queued(payload) => audio_taken(events.drop_last()).push(payload),
            _ => audio_taken(events.drop_last()),
        }
    }
}

/// The frames that the spectrum task offers to the session, until it ends.
pub open spec fn fft_frames(events: Seq<ForwardEventView>) -> Seq<Seq<u8>>
    decreases events.len(),
{
    if events.len() == 0 {
        Seq::empty()
    } else if fft_over(events.drop_last()) {
        fft_frames(events.drop_last())
    } else {
        match fft_action(events.last()) {
            ForwardActionView::Send(frame) => fft_frames(events.drop_last()).push(frame),
            _ => fft_frames(events.drop_last()),
        }
    }
}

/// The frames that the audio task offers to the session, until it ends.
pub open spec fn audio_frames(events: Seq<ForwardEventView>) -> Seq<Seq<u8>>
    decreases events.len(),
{
    if events.len() == 0 {
        Seq::empty()
    } else if audio_over(events.drop_last()) {
        audio_frames(events.drop_last())
    } else {
        match audio_action(events.last()) {
            ForwardActionView::Send(frame) => audio_frames(events.drop_last()).push(frame),
            _ => audio_frames(events.drop_last()),
        }
    }
}

/// `merged` interleaves the first `i` items of `a` and the first `j` items of `b`: what a channel
/// with two senders hands out, each sender's items in the order in which they were put in.
pub open spec fn interleaves(
    merged: Seq<Seq<u8>>,
    a: Seq<Seq<u8>>,
    i: int,
    b: Seq<Seq<u8>>,
    j: int,
) -> bool
    decreases merged.len(),
{
    if merged.len() == 0 {
        i == 0 && j == 0
    } else {
        ||| 0 < i <= a.len() && merged.last() == a[i - 1] && interleaves(
            merged.drop_last(),
            a,
            i - 1,
            b,
            j,
        )
        ||| 0 < j <= b.len() && merged.last() == b[j - 1] && interleaves(
            merged.drop_last(),
            a,
            i,
            b,
            j - 1,
        )
    }
}

/// Once the session has ended, it sends nothing more and queues nothing more, whatever else would
/// come.
pub proof fn law_session_ends(events: Seq<SessionEventView>, later: Seq<SessionEventView>)
    requires
        session_over(events),
    ensures
        socket_messages(events + later) == socket_messages(events),
        fft_queued(events + later) == fft_queued(events),
        audio_queued(events + later) == audio_queued(events),
    decreases later.len(),
{
    let all = events + later;
    if later.len() == 0 {
        assert(all =~= events);
    } else {
        law_session_ends(events, later.drop_last());
        let before = all.drop_last();
        assert(before =~= events + later.drop_last());
        let k = choose|k: int|
            0 <= k < events.len() && #[trigger] session_action(events[k]) is Stop;
        assert(session_action(before[k]) is Stop);
    }
}

/// Once the spectrum task has ended, it offers nothing more.
pub proof fn law_fft_task_ends(events: Seq<ForwardEventView>, later: Seq<ForwardEventView>)
    requires
        fft_over(events),
    ensures
        fft_frames(events + later) == fft_frames(events),
    decreases later.len(),
{
    let all = events + later;
    if later.len() == 0 {
        assert(all =~= events);
    } else {
        law_fft_task_ends(events, later.drop_last());
        let before = all.drop_last();
        assert(before =~= events + later.drop_last());
        let k = choose|k: int| 0 <= k < events.len() && #[trigger] fft_action(events[k]) is Stop;
        assert(fft_action(before[k]) is Stop);
    }
}

/// Once the audio task has ended, it offers nothing more.
pub proof fn law_audio_task_ends(events: Seq<ForwardEventView>, later: Seq<ForwardEventView>)
    requires
        audio_over(events),
    ensures
        audio_frames(events + later) == audio_frames(events),
    decreases later.len(),
{
    let all = events + later;
    if later.len() == 0 {
        assert(all =~= events);
    } else {
        law_audio_task_ends(events, later.drop_last());
        let before = all.drop_last();
        assert(before =~= events + later.drop_last());
        let k = choose|k: int| 0 <= k < events.len() && #[trigger] audio_action(events[k]) is Stop;
        assert(audio_action(before[k]) is Stop);
    }
}

/// The session sends the text of every report that it gets, once each and in the order in which
/// they came, and no other text.
pub proof fn law_session_sends_reports(events: Seq<SessionEventView>)
    ensures
        texts(socket_messages(events)) == reports_received(events).map_values(
            |stats: Stats| text_of(stats),
        ),
    decreases events.len(),
{
    let text = |stats: Stats| text_of(stats);
    if events.len() == 0 {
        assert(reports_received(events).map_values(text) =~= texts(socket_messages(events)));
    } else {
        law_session_sends_reports(events.drop_last());
        let before = socket_messages(events.drop_last());
        let messages = socket_messages(events);
        if messages.len() > before.len() {
            assert(messages.drop_last() =~= before);
        }
        if !session_over(events.drop_last()) {
            if let SessionEventView::Stats(Some(stats)) = events.last() {
                let reports = reports_received(events.drop_last());
                assert(reports.push(stats).map_values(text) =~= reports.map_values(text).push(
                    text_of(stats),
                ));
            }
        }
    }
}

/// The session queues all data that it gets for framing, each kind in the order in which it came.
pub proof fn law_session_queues_all(events: Seq<SessionEventView>)
    ensures
        fft_queued(events) == fft_received(events),
        audio_queued(events) == audio_received(events),
    decreases events.len(),
{
    if events.len() > 0 {
        law_session_queues_all(events.drop_last());
    }
}

/// The session sends all frames that it gets, as they are and in the order in which they came, and
/// no other binary message.
pub proof fn law_session_sends_frames(events: Seq<SessionEventView>)
    ensures
        binaries(socket_messages(events)) == frames_received(events),
    decreases events.len(),
{
    if events.len() > 0 {
        law_session_sends_frames(events.drop_last());
        let before = socket_messages(events.drop_last());
        let messages = socket_messages(events);
        if messages.len() > before.len() {
            assert(messages.drop_last() =~= before);
        }
    }
}

/// The spectrum task offers the tagged payload of everything that it takes from its queue, in
/// order: nothing is left out or repeated.
pub proof fn law_fft_frames_in_order(events: Seq<ForwardEventView>)
    ensures
        fft_frames(events) == fft_taken(events).map_values(
            |payload: Seq<u8>| DataView::Fft(payload).frame(),
        ),
    decreases events.len(),
{
    let framed = |payload: Seq<u8>| DataView::Fft(payload).frame();
    if events.len() > 0 {
        law_fft_frames_in_order(events.drop_last());
        let before = fft_taken(events.drop_last());
        if let ForwardEventView::Queued(payload) = events.last() {
            assert(before.push(payload).map_values(framed) =~= before.map_values(framed).push(
                framed(payload),
            ));
        }
    } else {
        assert(fft_taken(events).map_values(framed) =~= fft_frames(events));
    }
}

/// The audio task offers the tagged payload of everything that it takes from its queue, in
/// order: nothing is left out or repeated.
pub proof fn law_audio_frames_in_order(events: Seq<ForwardEventView>)
    ensures
        audio_frames(events) == audio_taken(events).map_values(
            |payload: Seq<u8>| DataView::Audio(payload).frame(),
        ),
    decreases events.len(),
{
    let framed = |payload: Seq<u8>| DataView::Audio(payload).frame();
    if events.len() > 0 {
        law_audio_frames_in_order(events.drop_last());
        let before = audio_taken(events.drop_last());
        if let ForwardEventView::Queued(payload) = events.last() {
            assert(before.push(payload).map_values(framed) =~= before.map_values(framed).push(
                framed(payload),
            ));
        }
    } else {
        assert(audio_taken(events).map_values(framed) =~= audio_frames(events));
    }
}

proof fn lemma_payloads_of_interleaved(
    merged: Seq<Seq<u8>>,
    spectra: Seq<Seq<u8>>,
    i: int,
    audio: Seq<Seq<u8>>,
    j: int,
)
    requires
        interleaves(
            merged,
            spectra.map_values(|payload: Seq<u8>| DataView::Fft(payload).frame()),
            i,
            audio.map_values(|payload: Seq<u8>| DataView::Audio(payload).frame()),
            j,
        ),
    ensures
        0 <= i <= spectra.len(),
        0 <= j <= audio.len(),
        payloads(merged, FFT_TAG) == spectra.take(i),
        payloads(merged, AUDIO_TAG) == audio.take(j),
        forall|k: int|
            #![trigger merged[k]]
            0 <= k < merged.len() ==> {
                ||| exists|m: int|
                    0 <= m < spectra.len() && merged[k] == DataView::Fft(
                        #[trigger] spectra[m],
                    ).frame()
                ||| exists|m: int|
                    0 <= m < audio.len() && merged[k] == DataView::Audio(
                        #[trigger] audio[m],
                    ).frame()
            },
    decreases merged.len(),
{
    let a = spectra.map_values(|payload: Seq<u8>| DataView::Fft(payload).frame());
    let b = audio.map_values(|payload: Seq<u8>| DataView::Audio(payload).frame());
    if merged.len() == 0 {
        assert(spectra.take(0) =~= Seq::<Seq<u8>>::empty());
        assert(audio.take(0) =~= Seq::<Seq<u8>>::empty());
    } else {
        let before = merged.drop_last();
        if 0 < i <= a.len() && merged.last() == a[i - 1] && interleaves(before, a, i - 1, b, j) {
            lemma_payloads_of_interleaved(before, spectra, i - 1, audio, j);
            let payload = spectra[i - 1];
            assert(merged.last() == DataView::Fft(payload).frame());
            assert(merged.last().skip(1) =~= payload);
            assert(spectra.take(i) =~= spectra.take(i - 1).push(payload));
        } else {
            lemma_payloads_of_interleaved(before, spectra, i, audio, j - 1);
            let payload = audio[j - 1];
            assert(merged.last() == DataView::Audio(payload).frame());
            assert(merged.last().skip(1) =~= payload);
            assert(audio.take(j) =~= audio.take(j - 1).push(payload));
        }
        assert forall|k: int| #![trigger merged[k]] 0 <= k < merged.len() implies {
            ||| exists|m: int|
                0 <= m < spectra.len() && merged[k] == DataView::Fft(#[trigger] spectra[m]).frame()
            ||| exists|m: int|
                0 <= m < audio.len() && merged[k] == DataView::Audio(#[trigger] audio[m]).frame()
        } by {
            if k < before.len() {
                assert(merged[k] == before[k]);
            }
        }
    }
}

/// The channels between the session and its framing tasks hand on what is put into them, in order:
/// each task takes a beginning of what was queued for it, and the session gets beginnings of what
/// the two tasks offered, in any mixture.
pub open spec fn channels_in_order(
    session: Seq<SessionEventView>,
    fft_task: Seq<ForwardEventView>,
    audio_task: Seq<ForwardEventView>,
    i: int,
    j: int,
) -> bool {
    &&& fft_taken(fft_task).is_prefix_of(fft_queued(session))
    &&& audio_taken(audio_task).is_prefix_of(audio_queued(session))
    &&& interleaves(frames_received(session), fft_frames(fft_task), i, audio_frames(audio_task), j)
}

/// A client gets the spectra and the audio in the order in which the connection got them from the
/// receiver: at any moment the payloads of the binary messages of a kind are a beginning of the
/// data of that kind. Within a kind nothing is dropped, repeated or moved.
pub proof fn law_data_stays_in_order(
    session: Seq<SessionEventView>,
    fft_task: Seq<ForwardEventView>,
    audio_task: Seq<ForwardEventView>,
    i: int,
    j: int,
)
    requires
        channels_in_order(session, fft_task, audio_task, i, j),
    ensures
        payloads(binaries(socket_messages(session)), FFT_TAG).is_prefix_of(fft_received(session)),
        payloads(binaries(socket_messages(session)), AUDIO_TAG).is_prefix_of(
            audio_received(session),
        ),
{
    law_session_queues_all(session);
    law_session_sends_frames(session);
    law_fft_frames_in_order(fft_task);
    law_audio_frames_in_order(audio_task);
    lemma_payloads_of_interleaved(
        frames_received(session),
        fft_taken(fft_task),
        i,
        audio_taken(audio_task),
        j,
    );
    lemma_prefix_of_prefix(fft_taken(fft_task), i, fft_received(session));
    lemma_prefix_of_prefix(audio_taken(audio_task), j, audio_received(session));
}

proof fn lemma_prefix_of_prefix(taken: Seq<Seq<u8>>, n: int, all: Seq<Seq<u8>>)
    requires
        taken.is_prefix_of(all),
        0 <= n <= taken.len(),
    ensures
        taken.take(n).is_prefix_of(all),
{
    assert(taken.take(n) =~= all.subrange(0, n));
}

proof fn lemma_received_from_events(events: Seq<SessionEventView>)
    ensures
        forall|m: int|
            0 <= m < fft_received(events).len() ==> events.contains(
                SessionEventView::Data(DataView::Fft(#[trigger] fft_received(events)[m])),
            ),
        forall|m: int|
            0 <= m < audio_received(events).len() ==> events.contains(
                SessionEventView::Data(DataView::Audio(#[trigger] audio_received(events)[m])),
            ),
    decreases events.len(),
{
    if events.len() > 0 {
        let before = events.drop_last();
        lemma_received_from_events(before);
        assert forall|event: SessionEventView| before.contains(event) implies events.contains(
            event,
        ) by {
            let k = before.index_of(event);
            assert(events[k] == event);
        }
        assert(events[events.len() - 1] == events.last());
        assert(events.contains(events.last()));
        assert forall|m: int| 0 <= m < fft_received(events).len() implies events.contains(
            SessionEventView::Data(DataView::Fft(#[trigger] fft_received(events)[m])),
        ) by {
            if m < fft_received(before).len() {
                assert(before.contains(
                    SessionEventView::Data(DataView::Fft(fft_received(before)[m])),
                ));
            }
        }
        assert forall|m: int| 0 <= m < audio_received(events).len() implies events.contains(
            SessionEventView::Data(DataView::Audio(#[trigger] audio_received(events)[m])),
        ) by {
            if m < audio_received(before).len() {
                assert(before.contains(
                    SessionEventView::Data(DataView::Audio(audio_received(before)[m])),
                ));
            }
        }
    }
}

proof fn lemma_messages_from_events(events: Seq<SessionEventView>)
    ensures
        forall|k: int|
            #![trigger socket_messages(events)[k]]
            0 <= k < socket_messages(events).len() ==> match socket_messages(events)[k] {
                SocketMessage::Text(text) => exists|stats: Stats|
                    #[trigger] events.contains(SessionEventView::Stats(Some(stats))) && text
                        == text_of(stats),
                SocketMessage::Binary(frame) => frames_received(events).contains(frame),
            },
    decreases events.len(),
{
    if events.len() > 0 {
        let before = events.drop_last();
        lemma_messages_from_events(before);
        assert forall|event: SessionEventView| before.contains(event) implies events.contains(
            event,
        ) by {
            let k = before.index_of(event);
            assert(events[k] == event);
        }
        assert forall|frame: Seq<u8>| frames_received(before).contains(
            frame,
        ) implies frames_received(events).contains(frame) by {
            let k = frames_received(before).index_of(frame);
            assert(frames_received(events)[k] == frame);
        }
        assert(events[events.len() - 1] == events.last());
        let messages = socket_messages(events);
        assert forall|k: int| #![trigger messages[k]] 0 <= k < messages.len() implies match messages[k] {
            SocketMessage::Text(text) => exists|stats: Stats|
                #[trigger] events.contains(SessionEventView::Stats(Some(stats))) && text == text_of(
                    stats,
                ),
            SocketMessage::Binary(frame) => frames_received(events).contains(frame),
        } by {
            if k < socket_messages(before).len() {
                assert(messages[k] == socket_messages(before)[k]);
            } else {
                match events.last() {
                    SessionEventView::Stats(Some(stats)) => {
                        assert(events.contains(SessionEventView::Stats(Some(stats))));
                    },
                    SessionEventView::Frame(frame) => {
                        assert(frames_received(events).last() == frame);
                    },
                    _ => {},
                }
            }
        }
    }
}

/// Whatever a client is sent comes from the receiver: a text is the text of a report that the
/// connection got, and a binary message is the frame of data that it got.
pub proof fn law_messages_explained(
    session: Seq<SessionEventView>,
    fft_task: Seq<ForwardEventView>,
    audio_task: Seq<ForwardEventView>,
    i: int,
    j: int,
    k: int,
)
    requires
        channels_in_order(session, fft_task, audio_task, i, j),
        0 <= k < socket_messages(session).len(),
    ensures
        match socket_messages(session)[k] {
            SocketMessage::Text(text) => exists|stats: Stats|
                #[trigger] session.contains(SessionEventView::Stats(Some(stats))) && text
                    == text_of(stats),
            SocketMessage::Binary(message) => exists|data: DataView|
                #[trigger] session.contains(SessionEventView::Data(data)) && message
                    == data.frame(),
        },
{
    lemma_messages_from_events(session);
    if let SocketMessage::Binary(message) = socket_messages(session)[k] {
        law_session_queues_all(session);
        law_fft_frames_in_order(fft_task);
        law_audio_frames_in_order(audio_task);
        lemma_received_from_events(session);
        let frames = frames_received(session);
        let spectra = fft_taken(fft_task);
        let audio = audio_taken(audio_task);
        lemma_payloads_of_interleaved(frames, spectra, i, audio, j);
        let at = frames.index_of(message);
        assert(frames[at] == message);
        if exists|m: int|
            0 <= m < spectra.len() && message == DataView::Fft(#[trigger] spectra[m]).frame() {
            let m = choose|m: int|
                0 <= m < spectra.len() && message == DataView::Fft(#[trigger] spectra[m]).frame();
            assert(spectra[m] == fft_received(session)[m]);
            assert(session.contains(SessionEventView::Data(DataView::Fft(spectra[m]))));
        } else {
            let m = choose|m: int|
                0 <= m < audio.len() && message == DataView::Audio(#[trigger] audio[m]).frame();
            assert(audio[m] == audio_received(session)[m]);
            assert(session.contains(SessionEventView::Data(DataView::Audio(audio[m]))));
        }
    }
}

} // verus!
