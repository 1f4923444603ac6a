use websdr::payload::Data;
use websdr::radio::IqSample;
use websdr::session::SdrCommand;
use websdr::worker::{SdrWorker, WorkerAction, WorkerEvent};

fn tune(frequency: u32) -> WorkerEvent<f32> {
    WorkerEvent::Command(Some(SdrCommand::ChangeFrequency { frequency }))
}

fn told(worker: &mut SdrWorker<f32>, event: WorkerEvent<f32>) -> WorkerAction<f32> {
    worker.step(event).unwrap()
}

/// Brings a new cycle to where it reads, and gives it `bytes`.
fn read_first(worker: &mut SdrWorker<f32>, bytes: Vec<u8>) {
    assert!(matches!(
        told(worker, WorkerEvent::Terminated(false)),
        WorkerAction::PollCommand
    ));
    assert!(matches!(told(worker, WorkerEvent::Command(None)), WorkerAction::Read));
    assert!(matches!(
        told(worker, WorkerEvent::Bytes(bytes)),
        WorkerAction::CheckTerminated
    ));
}

#[test]
fn the_cycle_ends_when_told() {
    let mut worker = SdrWorker::<f32>::new();
    assert!(matches!(
        told(&mut worker, WorkerEvent::Terminated(true)),
        WorkerAction::Close
    ));
    assert!(worker.step(WorkerEvent::Terminated(false)).is_none());
    assert!(worker.step(WorkerEvent::Sent).is_none());
}

#[test]
fn an_unexpected_event_changes_nothing() {
    let mut worker = SdrWorker::<f32>::new();
    assert!(worker.step(WorkerEvent::Sent).is_none());
    assert!(worker.step(WorkerEvent::Bytes(vec![1, 2])).is_none());
    assert!(worker.step(WorkerEvent::Retuned).is_none());
    assert!(worker.step(WorkerEvent::Encoded(vec![])).is_none());
    assert!(matches!(
        told(&mut worker, WorkerEvent::Terminated(false)),
        WorkerAction::PollCommand
    ));
    assert!(worker.step(WorkerEvent::Terminated(false)).is_none());
    assert!(matches!(told(&mut worker, WorkerEvent::Command(None)), WorkerAction::Read));
}

#[test]
fn the_last_command_counts() {
    let mut worker = SdrWorker::<f32>::new();
    told(&mut worker, WorkerEvent::Terminated(false));
    assert!(matches!(told(&mut worker, tune(1)), WorkerAction::PollCommand));
    assert!(matches!(told(&mut worker, tune(2)), WorkerAction::PollCommand));
    assert!(matches!(
        told(&mut worker, WorkerEvent::Command(None)),
        WorkerAction::Retune(2)
    ));
    assert!(matches!(told(&mut worker, WorkerEvent::Retuned), WorkerAction::Read));
}

#[test]
fn a_command_counts_for_one_round_only() {
    let mut worker = SdrWorker::<f32>::new();
    told(&mut worker, WorkerEvent::Terminated(false));
    told(&mut worker, tune(1));
    told(&mut worker, WorkerEvent::Command(None));
    told(&mut worker, WorkerEvent::Retuned);
    told(&mut worker, WorkerEvent::Bytes(vec![]));
    told(&mut worker, WorkerEvent::Terminated(false));
    assert!(matches!(told(&mut worker, WorkerEvent::Command(None)), WorkerAction::Read));
}

#[test]
fn a_full_block_is_analysed_and_the_rest_waits() {
    let mut worker = SdrWorker::<f32>::new();
    let bytes: Vec<u8> = (0..2 * 4097).map(|k| (k % 251) as u8).collect();
    read_first(&mut worker, bytes.clone());
    match told(&mut worker, WorkerEvent::Terminated(false)) {
        WorkerAction::Analyse { block, pairs } => {
            assert_eq!(block.len(), 4096);
            for (k, sample) in block.iter().enumerate() {
                let re = bytes[2 * k] as i32 - 127;
                let im = bytes[2 * k + 1] as i32 - 127;
                assert_eq!(*sample, IqSample { re, im });
            }
            assert_eq!(pairs.len(), 76);
            assert_eq!(pairs[3], [block[162], block[168]]);
        }
        _ => panic!("not analysed"),
    }
    match told(
        &mut worker,
        WorkerEvent::Analysed { bins: vec![1, 2, 3], audio: vec![0.5; 76] },
    ) {
        WorkerAction::Broadcast(Data::Fft(bins)) => assert_eq!(&bins[..], &[1, 2, 3]),
        _ => panic!("no spectrum"),
    }
    assert!(matches!(told(&mut worker, WorkerEvent::Sent), WorkerAction::PollCommand));

    // The sample left over comes first in the next block.
    told(&mut worker, WorkerEvent::Command(None));
    told(&mut worker, WorkerEvent::Bytes(vec![127; 2 * 4095]));
    match told(&mut worker, WorkerEvent::Terminated(false)) {
        WorkerAction::Analyse { block, .. } => {
            assert_eq!(block.len(), 4096);
            assert_eq!(block[0].re, bytes[8192] as i32 - 127);
            assert_eq!(block[1], IqSample { re: 0, im: 0 });
        }
        _ => panic!("not analysed"),
    }
}

#[test]
fn audio_goes_out_in_full_messages() {
    let mut worker = SdrWorker::<f32>::new();
    read_first(&mut worker, vec![0; 2 * 4096]);
    told(&mut worker, WorkerEvent::Terminated(false));
    let audio: Vec<f32> = (0..900).map(|k| k as f32).collect();
    told(&mut worker, WorkerEvent::Analysed { bins: vec![], audio });
    for message in 0..2 {
        match told(&mut worker, WorkerEvent::Sent) {
            WorkerAction::Encode(chunk) => {
                assert_eq!(chunk.len(), 441);
                assert_eq!(chunk[0], (441 * message) as f32);
            }
            _ => panic!("no audio"),
        }
        match told(&mut worker, WorkerEvent::Encoded(vec![258, -1])) {
            WorkerAction::Broadcast(Data::Audio(bytes)) => {
                assert_eq!(&bytes[..], &[2, 1, 0xff, 0xff])
            }
            _ => panic!("not sent"),
        }
    }
    assert!(matches!(told(&mut worker, WorkerEvent::Sent), WorkerAction::PollCommand));
}

#[test]
fn all_blocks_are_analysed_before_audio_goes_out() {
    let mut worker = SdrWorker::<f32>::new();
    read_first(&mut worker, vec![5; 3 * 2 * 4096]);
    let mut event = WorkerEvent::Terminated(false);
    for _ in 0..3 {
        assert!(matches!(told(&mut worker, event), WorkerAction::Analyse { .. }));
        told(&mut worker, WorkerEvent::Analysed { bins: vec![], audio: vec![0.0; 200] });
        event = WorkerEvent::Sent;
    }
    assert!(matches!(told(&mut worker, event), WorkerAction::Encode(_)));
}

#[test]
fn commands_are_taken_from_the_channel() {
    let (tx, rx) = async_channel::bounded(4);
    let mut worker = SdrWorker::<f32>::new();
    tx.try_send(SdrCommand::ChangeFrequency { frequency: 3 }).unwrap();
    tx.try_send(SdrCommand::ChangeFrequency { frequency: 4 }).unwrap();

    // A cycle that does not wait for a command leaves the commands alone.
    assert!(worker.poll_command(&rx).is_none());
    assert_eq!(rx.len(), 2);

    told(&mut worker, WorkerEvent::Terminated(false));
    assert!(matches!(worker.poll_command(&rx), Some(WorkerAction::PollCommand)));
    assert!(matches!(worker.poll_command(&rx), Some(WorkerAction::PollCommand)));
    assert!(matches!(worker.poll_command(&rx), Some(WorkerAction::Retune(4))));
    assert!(rx.is_empty());
}

#[test]
fn an_empty_or_closed_channel_has_no_command() {
    let (tx, rx) = async_channel::bounded(4);
    let mut worker = SdrWorker::<f32>::new();
    told(&mut worker, WorkerEvent::Terminated(false));
    assert!(matches!(worker.poll_command(&rx), Some(WorkerAction::Read)));
    told(&mut worker, WorkerEvent::Bytes(vec![]));
    told(&mut worker, WorkerEvent::Terminated(false));
    drop(tx);
    assert!(matches!(worker.poll_command(&rx), Some(WorkerAction::Read)));
}

#[test]
fn a_round_of_work_ends_with_a_read() {
    let mut worker = SdrWorker::<f32>::new();
    read_first(&mut worker, vec![200; 2 * (5 * 4096 + 17)]);
    let mut sent = Vec::new();
    let mut event = WorkerEvent::Terminated(false);
    loop {
        event = match told(&mut worker, event) {
            WorkerAction::Analyse { block, pairs } => WorkerEvent::Analysed {
                bins: vec![block.len() as u8, 3],
                audio: vec![1.0; 4 * pairs.len()],
            },
            WorkerAction::Broadcast(Data::Fft(_)) => {
                sent.push('f');
                WorkerEvent::Sent
            }
            WorkerAction::Broadcast(Data::Audio(_)) => {
                sent.push('a');
                WorkerEvent::Sent
            }
            WorkerAction::Encode(audio) => WorkerEvent::Encoded(vec![7; audio.len()]),
            WorkerAction::PollCommand => WorkerEvent::Command(None),
            WorkerAction::Read => break,
            _ => panic!("not part of a round"),
        };
    }
    // Five blocks give 5 * 4 * 76 pieces of audio: three full messages, and a rest that waits.
    assert_eq!(sent, vec!['f', 'f', 'f', 'f', 'f', 'a', 'a', 'a']);
}

#[test]
fn audio_keeps_pace_with_the_spectra() {
    let mut worker = SdrWorker::<f32>::new();
    let mut event = WorkerEvent::Terminated(false);
    let (mut spectra, mut messages, mut reads) = (0, 0, 0);
    loop {
        event = match told(&mut worker, event) {
            WorkerAction::CheckTerminated => WorkerEvent::Terminated(false),
            WorkerAction::Analyse { block, pairs } => WorkerEvent::Analysed {
                bins: vec![0; block.len()],
                audio: vec![0.0; pairs.len()],
            },
            WorkerAction::Broadcast(Data::Fft(bins)) => {
                assert_eq!(bins.len(), 4096);
                spectra += 1;
                WorkerEvent::Sent
            }
            WorkerAction::Broadcast(Data::Audio(bytes)) => {
                assert_eq!(bytes.len(), 882);
                messages += 1;
                WorkerEvent::Sent
            }
            WorkerAction::Encode(audio) => WorkerEvent::Encoded(vec![0; audio.len()]),
            WorkerAction::PollCommand => WorkerEvent::Command(None),
            WorkerAction::Read => {
                assert_eq!(messages, 76 * spectra / 441);
                reads += 1;
                if reads > 12 {
                    break;
                }
                WorkerEvent::Bytes(vec![0; 2 * 9000])
            }
            _ => panic!("not part of a round"),
        };
    }
    assert_eq!((spectra, messages), (26, 4));
}

#[test]
fn audio_can_be_traced_to_the_samples() {
    let samples = 6 * 4096 + 100;
    let bytes: Vec<u8> = (0..2 * samples).map(|k| ((k * k + 13 * k) % 256) as u8).collect();
    let step = |[s0, s1]: [IqSample; 2]| (s0.re * 256 + s1.im) as f32;
    let level = |audio: f32| audio as i16;

    let mut worker = SdrWorker::<f32>::new();
    read_first(&mut worker, bytes.clone());
    let mut event = WorkerEvent::Terminated(false);
    let mut blocks = Vec::new();
    let mut sent = Vec::new();
    loop {
        event = match told(&mut worker, event) {
            WorkerAction::Analyse { block, pairs } => {
                blocks.push(block);
                WorkerEvent::Analysed {
                    bins: vec![0; 4096],
                    audio: pairs.into_iter().map(step).collect(),
                }
            }
            WorkerAction::Broadcast(data) => {
                if let Data::Audio(payload) = data {
                    sent.extend_from_slice(&payload);
                }
                WorkerEvent::Sent
            }
            WorkerAction::Encode(audio) => {
                WorkerEvent::Encoded(audio.into_iter().map(level).collect())
            }
            WorkerAction::PollCommand => WorkerEvent::Command(None),
            WorkerAction::Read => break,
            _ => panic!("not part of a round"),
        };
    }

    let sample = |k: usize| IqSample {
        re: bytes[2 * k] as i32 - 127,
        im: bytes[2 * k + 1] as i32 - 127,
    };
    assert_eq!(blocks.len(), samples / 4096);
    for (j, block) in blocks.iter().enumerate() {
        for (k, value) in block.iter().enumerate() {
            assert_eq!(*value, sample(4096 * j + k));
        }
    }
    assert_eq!(sent.len(), 882);
    for i in 0..441 {
        let first = 4096 * (i / 76) + 54 * (i % 76);
        let expected = level(step([sample(first), sample(first + 6)]));
        assert_eq!(sent[2 * i..2 * i + 2], expected.to_le_bytes());
    }
}
