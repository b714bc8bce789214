use std::sync::Arc;

use veloren::frame::Frame;
use veloren::message::MessageBuffer;
use veloren::prio::{bytes_in_exec, to_signed_budget, PrioManager};

const SECOND: u128 = 1_000_000_000;

fn buffer(len: usize) -> Arc<MessageBuffer> {
    let data: Vec<u8> = (0..len).map(|i| (i % 251) as u8).collect();
    Arc::new(MessageBuffer { data })
}

fn header(mid: u64, sid: u64, length: u64) -> Frame {
    Frame::DataHeader { mid, sid, length }
}

fn data(mid: u64, start: u64, len: usize) -> Frame {
    let data: Vec<u8> = (start as usize..start as usize + len).map(|i| (i % 251) as u8).collect();
    Frame::Data { mid, start, data }
}

#[test]
fn open_and_close_streams() {
    let mut pm = PrioManager::new();
    assert!(pm.is_empty());
    pm.open_stream(1, 0, 0, 0);
    assert!(!pm.is_empty());
    assert!(!pm.try_close_stream(2));
    assert!(pm.try_close_stream(1));
    assert!(pm.is_empty());
    assert!(!pm.try_close_stream(1));
}

#[test]
fn stream_with_queued_message_does_not_close() {
    let mut pm = PrioManager::new();
    pm.open_stream(1, 0, 0, 0);
    pm.add(buffer(10), 3, 1);
    assert!(!pm.try_close_stream(1));
    assert!(!pm.is_empty());
}

#[test]
fn small_message_goes_out_in_one_grab() {
    let mut pm = PrioManager::new();
    pm.open_stream(1, 0, 0, 0);
    pm.add(buffer(2), 7, 1);
    let frames = pm.grab(100_000, SECOND).0;
    assert_eq!(frames, vec![header(7, 1, 2), data(7, 0, 2)]);
    assert!(pm.try_close_stream(1));
}

#[test]
fn zero_budget_still_sends_one_frame_per_grab() {
    let mut pm = PrioManager::new();
    pm.open_stream(4, 2, 0, 0);
    pm.add(buffer(3000), 1, 4);
    assert_eq!(pm.grab(0, SECOND).0, vec![header(1, 4, 3000)]);
    assert_eq!(pm.grab(0, SECOND).0, vec![data(1, 0, 1400)]);
    assert_eq!(pm.grab(0, SECOND).0, vec![data(1, 1400, 1400)]);
    assert_eq!(pm.grab(0, SECOND).0, vec![data(1, 2800, 200)]);
    // the last frame used the budget up, so the message is still queued
    assert!(!pm.try_close_stream(4));
    assert_eq!(pm.grab(0, SECOND).0, Vec::<Frame>::new());
    assert!(pm.try_close_stream(4));
}

#[test]
fn guaranteed_bandwidth_is_spent_first() {
    let mut pm = PrioManager::new();
    pm.open_stream(1, 0, 0, 1000);
    pm.add(buffer(5000), 2, 1);
    // 1000 bytes: the header (25) leaves 975, the data frame (1419) exceeds it
    assert_eq!(pm.grab(0, SECOND).0, vec![header(2, 1, 5000), data(2, 0, 1400)]);
}

#[test]
fn messages_of_a_stream_go_out_in_order() {
    let mut pm = PrioManager::new();
    pm.open_stream(9, 0, 0, 0);
    pm.add(buffer(1), 1, 9);
    pm.add(buffer(1), 2, 9);
    let frames = pm.grab(1_000_000, SECOND).0;
    assert_eq!(frames, vec![header(1, 9, 1), data(1, 0, 1), header(2, 9, 1), data(2, 0, 1)]);
    assert!(pm.try_close_stream(9));
}

#[test]
fn prio_above_highest_is_counted_but_not_served() {
    let mut pm = PrioManager::new();
    pm.open_stream(1, 7, 0, 0);
    pm.open_stream(2, 9, 0, 0);
    pm.add(buffer(10), 11, 1);
    pm.add(buffer(10), 12, 2);
    // both headers go out first (50 bytes); the 2950 bytes left are shared by
    // the two streams counted at level 7, but only stream 1 has prio 7
    let frames = pm.grab(3000, SECOND).0;
    assert_eq!(frames.len(), 3);
    assert!(frames.contains(&header(11, 1, 10)));
    assert!(frames.contains(&header(12, 2, 10)));
    assert_eq!(frames[2], data(11, 0, 10));
    assert!(pm.try_close_stream(1));
    assert!(!pm.try_close_stream(2));
}

#[test]
fn explicit_walk_order_is_followed() {
    let mut pm = PrioManager::new();
    pm.open_stream(1, 0, 0, 0);
    pm.open_stream(2, 0, 0, 0);
    pm.add(buffer(4), 5, 1);
    pm.add(buffer(4), 6, 2);
    let frames = pm.grab_in_order(&vec![2, 1], 0, SECOND).0;
    assert_eq!(frames, vec![header(6, 2, 4), header(5, 1, 4)]);
    let frames = pm.grab_in_order(&vec![1, 2], 0, SECOND).0;
    assert_eq!(frames, vec![data(5, 0, 4), data(6, 0, 4)]);
}

#[test]
fn bytes_follow_bandwidth_and_time() {
    assert_eq!(bytes_in_exec(3, SECOND / 2), 1);
    assert_eq!(bytes_in_exec(1000, SECOND), 1000);
    assert_eq!(bytes_in_exec(1000, 2 * SECOND), 2000);
    assert_eq!(bytes_in_exec(u64::MAX, u128::MAX), u64::MAX);
    assert_eq!(bytes_in_exec(u64::MAX, 2 * SECOND), u64::MAX);
}

#[test]
fn budgets_above_i64_wrap_to_negative() {
    assert_eq!(to_signed_budget(5), 5);
    assert_eq!(to_signed_budget(i64::MAX as u64), i64::MAX);
    assert_eq!(to_signed_budget(1u64 << 63), i64::MIN);
    assert_eq!(to_signed_budget(u64::MAX), -1);
}


#[test]
fn every_frame_of_a_message_goes_out_exactly_once() {
    let mut pm = PrioManager::new();
    pm.open_stream(3, 1, 0, 2000);
    pm.add(buffer(5000), 8, 3);
    let mut sent: Vec<Frame> = Vec::new();
    for _ in 0..10 {
        sent.extend(pm.grab(0, SECOND).0);
    }
    assert!(pm.try_close_stream(3));
    let headers = sent.iter().filter(|f| matches!(f, Frame::DataHeader { .. })).count();
    assert_eq!(headers, 1);
    let mut payload: Vec<u8> = Vec::new();
    for f in &sent {
        if let Frame::Data { start, data, .. } = f {
            assert_eq!(*start as usize, payload.len());
            payload.extend(data);
        }
    }
    let expected: Vec<u8> = (0..5000).map(|i| (i % 251) as u8).collect();
    assert_eq!(payload, expected);
}

#[test]
fn each_stream_with_pending_frames_sends_in_every_grab() {
    let mut pm = PrioManager::new();
    for sid in 1..=3u64 {
        pm.open_stream(sid, sid as u8, 0, 0);
        pm.add(buffer(10), 100 + sid, sid);
    }
    let frames = pm.grab(0, SECOND).0;
    assert_eq!(frames.len(), 3);
    for sid in 1..=3u64 {
        assert!(frames.contains(&header(100 + sid, sid, 10)));
    }
}

#[test]
fn idle_streams_send_nothing() {
    let mut pm = PrioManager::new();
    pm.open_stream(1, 0, 0, 1_000_000);
    pm.open_stream(2, 5, 0, 0);
    assert_eq!(pm.grab(1_000_000, SECOND).0, Vec::<Frame>::new());
    assert!(pm.try_close_stream(1));
    assert!(pm.try_close_stream(2));
}

#[test]
fn reopening_a_stream_replaces_its_queue() {
    let mut pm = PrioManager::new();
    pm.open_stream(1, 0, 0, 0);
    pm.add(buffer(10), 1, 1);
    pm.open_stream(1, 0, 0, 0);
    assert!(pm.try_close_stream(1));
}

#[test]
fn finished_messages_are_reported_last_first() {
    let mut pm = PrioManager::new();
    pm.open_stream(9, 0, 0, 0);
    pm.add(buffer(1), 1, 9);
    pm.add(buffer(3), 2, 9);
    pm.add(buffer(20000), 3, 9);
    let (frames, finished) = pm.grab(10_000, SECOND);
    // the first two messages go out and leave; the third stops inside
    assert_eq!(frames.len(), 10);
    assert_eq!(finished, vec![(9, 3), (9, 1)]);
    let (_, finished) = pm.grab(1_000_000, SECOND);
    assert_eq!(finished, vec![(9, 20000)]);
}

#[test]
fn nothing_is_reported_while_a_message_is_unfinished() {
    let mut pm = PrioManager::new();
    pm.open_stream(2, 0, 0, 0);
    pm.add(buffer(3000), 4, 2);
    let (frames, finished) = pm.grab(0, SECOND);
    assert_eq!(frames, vec![header(4, 2, 3000)]);
    assert_eq!(finished, Vec::<(u64, u64)>::new());
}
