use bytes::Bytes;
use websdr::payload::Data;
use websdr::session::{
    forward_audio, forward_fft, handle_commands, handle_data, ClientMessage, CommandAction,
    CommandSend, ForwardAction, ForwardEvent, SdrCommand, SessionAction, SessionEvent, Stats,
};

#[test]
fn a_command_is_reported_and_applied() {
    let command = SdrCommand::ChangeFrequency { frequency: 101_500_000 };
    assert_eq!(
        handle_commands(ClientMessage::Text(Some(command))),
        CommandAction::Apply { stats: Stats::Frequency(101_500_000), command }
    );
}

#[test]
fn the_report_goes_before_the_command() {
    let command = SdrCommand::ChangeFrequency { frequency: 88_000_000 };
    assert_eq!(
        handle_commands(ClientMessage::Text(Some(command))).sends(),
        vec![
            CommandSend::Report(Stats::Frequency(88_000_000)),
            CommandSend::Command(command),
        ]
    );
    assert_eq!(CommandAction::Ignore.sends(), vec![]);
    assert_eq!(CommandAction::Stop.sends(), vec![]);
}

#[test]
fn each_report_announces_its_command() {
    let messages = vec![
        ClientMessage::Text(Some(SdrCommand::ChangeFrequency { frequency: 1 })),
        ClientMessage::Other,
        ClientMessage::Text(Some(SdrCommand::ChangeFrequency { frequency: 2 })),
        ClientMessage::Text(None),
    ];
    let mut reports = Vec::new();
    let mut commands = Vec::new();
    for message in messages {
        for send in handle_commands(message).sends() {
            match send {
                CommandSend::Report(Stats::Frequency(frequency)) => reports.push(frequency),
                CommandSend::Command(SdrCommand::ChangeFrequency { frequency }) => {
                    commands.push(frequency)
                }
            }
            assert!(commands.len() <= reports.len());
            assert!(reports.len() <= commands.len() + 1);
        }
    }
    assert_eq!(reports, vec![1, 2]);
    assert_eq!(commands, vec![1, 2]);
}

#[test]
fn each_kind_of_data_stays_in_order() {
    let events = vec![
        SessionEvent::Data(Data::fft(vec![1])),
        SessionEvent::Data(Data::audio(&[2])),
        SessionEvent::Data(Data::fft(vec![3])),
        SessionEvent::Data(Data::audio(&[4])),
    ];
    let mut sent = Vec::new();
    for event in events {
        let step = match handle_data(event) {
            SessionAction::QueueFft(fft) => forward_fft(ForwardEvent::Queued(fft)),
            SessionAction::QueueAudio(audio) => forward_audio(ForwardEvent::Queued(audio)),
            _ => panic!("not queued"),
        };
        let frame = match step {
            ForwardAction::Send(frame) => frame,
            _ => panic!("no frame"),
        };
        match handle_data(SessionEvent::Frame(frame)) {
            SessionAction::SendBinary(message) => sent.push(message),
            _ => panic!("not sent"),
        }
    }
    assert_eq!(sent, vec![vec![1, 1], vec![2, 2, 0], vec![1, 3], vec![2, 4, 0]]);
}

#[test]
fn other_messages_are_ignored() {
    assert_eq!(handle_commands(ClientMessage::Text(None)), CommandAction::Ignore);
    assert_eq!(handle_commands(ClientMessage::Other), CommandAction::Ignore);
}

#[test]
fn listening_ends_with_the_connection() {
    assert_eq!(handle_commands(ClientMessage::Failed), CommandAction::Stop);
    assert_eq!(handle_commands(ClientMessage::Closed), CommandAction::Stop);
}

#[test]
fn reports_are_sent_until_there_are_no_more() {
    for (frequency, expected) in [
        (0, "0"),
        (7, "7"),
        (10, "10"),
        (95_000_000, "95000000"),
        (u32::MAX, "4294967295"),
    ] {
        match handle_data(SessionEvent::Stats(Some(Stats::Frequency(frequency)))) {
            SessionAction::SendText(text) => assert_eq!(text, expected),
            _ => panic!("not sent"),
        }
    }
    assert!(matches!(handle_data(SessionEvent::Stats(None)), SessionAction::Stop));
}

#[test]
fn a_session_goes_on_after_success_and_stops_after_failure() {
    assert!(matches!(handle_data(SessionEvent::Done), SessionAction::Wait));
    assert!(matches!(handle_data(SessionEvent::Failed), SessionAction::Stop));
}

#[test]
fn data_becomes_a_binary_message() {
    let queued = match handle_data(SessionEvent::Data(Data::fft(vec![5, 6]))) {
        SessionAction::QueueFft(bytes) => bytes,
        _ => panic!("not queued"),
    };
    let frame = match forward_fft(ForwardEvent::Queued(queued)) {
        ForwardAction::Send(frame) => frame,
        _ => panic!("no frame"),
    };
    match handle_data(SessionEvent::Frame(frame)) {
        SessionAction::SendBinary(message) => assert_eq!(message, vec![1, 5, 6]),
        _ => panic!("not sent"),
    }

    let queued = match handle_data(SessionEvent::Data(Data::audio(&[-2]))) {
        SessionAction::QueueAudio(bytes) => bytes,
        _ => panic!("not queued"),
    };
    match forward_audio(ForwardEvent::Queued(queued)) {
        ForwardAction::Send(frame) => assert_eq!(frame, vec![2, 0xfe, 0xff]),
        _ => panic!("no frame"),
    }
}

#[test]
fn the_audio_task_paces_itself_and_gives_up_when_refused() {
    assert!(matches!(forward_audio(ForwardEvent::Sent), ForwardAction::Pace));
    assert!(matches!(forward_audio(ForwardEvent::Paced), ForwardAction::Wait));
    assert!(matches!(forward_audio(ForwardEvent::Refused), ForwardAction::Stop));
    assert!(matches!(forward_audio(ForwardEvent::Closed), ForwardAction::Stop));
}

#[test]
fn the_spectrum_task_goes_on_when_refused() {
    assert!(matches!(forward_fft(ForwardEvent::Sent), ForwardAction::Wait));
    assert!(matches!(forward_fft(ForwardEvent::Refused), ForwardAction::Wait));
    assert!(matches!(forward_fft(ForwardEvent::Closed), ForwardAction::Stop));
    match forward_fft(ForwardEvent::Queued(Bytes::new())) {
        ForwardAction::Send(frame) => assert_eq!(frame, vec![1]),
        _ => panic!("no frame"),
    }
}

#[test]
fn reports_keep_their_order() {
    let mut texts = Vec::new();
    for frequency in [3, 1, 3] {
        match handle_data(SessionEvent::Stats(Some(Stats::Frequency(frequency)))) {
            SessionAction::SendText(text) => texts.push(text),
            _ => panic!("not sent"),
        }
    }
    assert_eq!(texts, vec!["3", "1", "3"]);
}
