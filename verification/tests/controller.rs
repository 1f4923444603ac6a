use std::collections::HashMap;

use websdr::controller::{ControllerState, BUFFER_CAPACITY};
use websdr::payload::Data;

fn bins(data: Data) -> Vec<u8> {
    match data {
        Data::Fft(bytes) => bytes.to_vec(),
        Data::Audio(_) => panic!("audio"),
    }
}

#[test]
fn numbers_count_up_and_are_not_reused() {
    let mut state = ControllerState::new();
    let (first, _first_rx) = state.alloc_buffer();
    let (second, _second_rx) = state.alloc_buffer();
    state.free_buffer(first);
    let (third, _third_rx) = state.alloc_buffer();
    assert_eq!((first, second, third), (0, 1, 2));
}

#[test]
fn a_buffer_holds_a_hundred_items() {
    let mut state = ControllerState::new();
    let (_, rx) = state.alloc_buffer();
    assert_eq!(BUFFER_CAPACITY, 100);
    assert_eq!(rx.capacity(), Some(100));
    assert!(rx.is_empty());
}

#[test]
fn every_client_gets_the_data_once() {
    let mut state = ControllerState::new();
    let mut receivers = HashMap::new();
    for _ in 0..5 {
        let (id, rx) = state.alloc_buffer();
        receivers.insert(id, rx);
    }
    let deliveries = state.send_to_all(Data::fft(vec![4, 2]));
    assert_eq!(deliveries.len(), 5);
    for delivery in deliveries {
        assert!(delivery.tx.try_send(delivery.data).is_ok());
        assert_eq!(receivers[&delivery.id].len(), 1);
    }
    for rx in receivers.values() {
        assert_eq!(bins(rx.try_recv().unwrap()), vec![4, 2]);
        assert!(rx.try_recv().is_err());
    }
}

#[test]
fn a_freed_buffer_gets_nothing_and_closes() {
    let mut state = ControllerState::new();
    let (gone, gone_rx) = state.alloc_buffer();
    let (kept, kept_rx) = state.alloc_buffer();
    state.free_buffer(gone);
    assert!(gone_rx.is_closed());
    let deliveries = state.send_to_all(Data::fft(vec![1]));
    assert_eq!(deliveries.len(), 1);
    assert_eq!(deliveries[0].id, kept);
    assert!(!kept_rx.is_closed());
}

#[test]
fn freeing_an_unknown_buffer_changes_nothing() {
    let mut state = ControllerState::new();
    let (id, _rx) = state.alloc_buffer();
    state.free_buffer(id + 1);
    assert_eq!(state.send_to_all(Data::fft(vec![])).len(), 1);
    state.free_buffer(id);
    state.free_buffer(id);
    assert_eq!(state.send_to_all(Data::fft(vec![])).len(), 0);
}

#[test]
fn nobody_connected_means_no_deliveries() {
    assert!(ControllerState::new().send_to_all(Data::audio(&[1])).is_empty());
}

fn deliver(state: &ControllerState, bin: u8) {
    for delivery in state.send_to_all(Data::fft(vec![bin])) {
        assert!(delivery.tx.try_send(delivery.data).is_ok());
    }
}

#[test]
fn a_client_gets_what_is_sent_while_it_is_connected() {
    let mut state = ControllerState::new();
    let (_, _first_rx) = state.alloc_buffer();
    deliver(&state, 1);
    let (id, rx) = state.alloc_buffer();
    deliver(&state, 2);
    let (other, other_rx) = state.alloc_buffer();
    deliver(&state, 3);
    state.free_buffer(other);
    deliver(&state, 4);
    assert_eq!(id, 1);
    let mut got = Vec::new();
    while let Ok(data) = rx.try_recv() {
        got.push(bins(data));
    }
    assert_eq!(got, vec![vec![2], vec![3], vec![4]]);
    assert_eq!(bins(other_rx.try_recv().unwrap()), vec![3]);
    assert!(other_rx.try_recv().is_err());
}

#[test]
fn a_dropped_client_keeps_what_it_had_and_gets_nothing_more() {
    let mut state = ControllerState::new();
    let (id, rx) = state.alloc_buffer();
    deliver(&state, 7);
    state.free_buffer(id);
    deliver(&state, 8);
    let (_, _later_rx) = state.alloc_buffer();
    deliver(&state, 9);
    assert_eq!(bins(rx.try_recv().unwrap()), vec![7]);
    assert!(rx.try_recv().is_err());
    assert!(rx.is_closed());
}
