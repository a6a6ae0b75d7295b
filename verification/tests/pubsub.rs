//! The subscription engine and the shutdown protocol: fan-out through a
//! real broadcast channel, acks and their counts, unsubscribe-all, and
//! the drain sequence.

use mini_redis::cmd::{make_message_frame, make_subscribe_frame, make_unsubscribe_frame,
    Publish, Subscriptions};
use mini_redis::frame::Frame;
use mini_redis::shutdown::{DrainTracker, Shutdown};
use tokio::sync::broadcast;

fn ack(kind: &str, chan: &str, n: u64) -> Frame {
    Frame::Array(vec![
        Frame::Bulk(kind.as_bytes().to_vec()),
        Frame::Bulk(chan.as_bytes().to_vec()),
        Frame::Int(n),
    ])
}

#[test]
fn fan_out_two_subscribers() {
    let (tx, mut rx1) = broadcast::channel::<Vec<u8>>(16);
    let mut rx2 = tx.subscribe();
    let receivers = tx.send(b"hi".to_vec()).unwrap();
    assert_eq!(receivers, 2);
    assert_eq!(rx1.try_recv().unwrap(), b"hi".to_vec());
    assert_eq!(rx2.try_recv().unwrap(), b"hi".to_vec());
    assert!(rx1.try_recv().is_err());
    assert!(rx2.try_recv().is_err());
    assert!(Publish::response(receivers as u64) == Frame::Int(2));
    let push = make_message_frame("news".to_string(), b"hi".to_vec());
    assert!(push == ack_bytes("message", "news", b"hi"));
}

fn ack_bytes(kind: &str, chan: &str, payload: &[u8]) -> Frame {
    Frame::Array(vec![
        Frame::Bulk(kind.as_bytes().to_vec()),
        Frame::Bulk(chan.as_bytes().to_vec()),
        Frame::Bulk(payload.to_vec()),
    ])
}

#[test]
fn subscribe_acks_count_up() {
    let mut subs = Subscriptions::new();
    let a1 = subs.subscribe_one("a".to_string());
    let a2 = subs.subscribe_one("b".to_string());
    assert!(a1 == ack("subscribe", "a", 1));
    assert!(a2 == ack("subscribe", "b", 2));
    assert_eq!(subs.len(), 2);
}

#[test]
fn resubscribing_does_not_grow_the_set() {
    let mut subs = Subscriptions::new();
    subs.subscribe_one("a".to_string());
    let again = subs.subscribe_one("a".to_string());
    assert!(again == ack("subscribe", "a", 1));
    assert_eq!(subs.len(), 1);
}

#[test]
fn unsubscribe_one_and_unheld_channel() {
    let mut subs = Subscriptions::new();
    subs.subscribe_one("a".to_string());
    subs.subscribe_one("b".to_string());
    let gone = subs.unsubscribe_one("a".to_string());
    assert!(gone == ack("unsubscribe", "a", 1));
    assert_eq!(subs.len(), 1);
    let noop = subs.unsubscribe_one("zzz".to_string());
    assert!(noop == ack("unsubscribe", "zzz", 1));
    assert_eq!(subs.len(), 1);
}

#[test]
fn unsubscribe_all_drains_the_set_and_ends_the_loop() {
    let mut subs = Subscriptions::new();
    subs.subscribe_one("a".to_string());
    subs.subscribe_one("b".to_string());
    assert!(!subs.loop_done(false, false));
    let acks = subs.unsubscribe_all();
    assert_eq!(acks.len(), 2);
    assert!(acks[0] == ack("unsubscribe", "a", 1));
    assert!(acks[1] == ack("unsubscribe", "b", 0));
    assert_eq!(subs.len(), 0);
    assert!(subs.loop_done(false, false));
}

#[test]
fn frame_builders_match_wire_shape() {
    assert!(make_subscribe_frame("news".to_string(), 1) == ack("subscribe", "news", 1));
    assert!(make_unsubscribe_frame("news".to_string(), 0) == ack("unsubscribe", "news", 0));
}

#[test]
fn lag_is_survivable() {
    // A slow consumer overflows the bounded buffer; the receiver reports
    // the lag once and then resumes, losing the overwritten messages only.
    let (tx, mut rx) = broadcast::channel::<u64>(2);
    for i in 0..5u64 {
        tx.send(i).unwrap();
    }
    match rx.try_recv() {
        Err(broadcast::error::TryRecvError::Lagged(n)) => assert!(n > 0),
        other => panic!("got {:?}", other),
    }
    assert_eq!(rx.try_recv().unwrap(), 3);
    assert_eq!(rx.try_recv().unwrap(), 4);
}

#[test]
fn shutdown_is_observed_once_and_idempotently() {
    let mut s = Shutdown::new();
    assert!(!s.is_shutdown());
    s.note_shutdown();
    assert!(s.is_shutdown());
    s.note_shutdown();
    assert!(s.is_shutdown());
}

#[test]
fn shutdown_ends_the_subscribed_loop() {
    let mut subs = Subscriptions::new();
    subs.subscribe_one("a".to_string());
    assert!(!subs.loop_done(false, false));
    assert!(subs.loop_done(true, false));
    assert!(subs.loop_done(false, true));
}

#[test]
fn drain_tracker_releases_only_when_everyone_left() {
    let mut t = DrainTracker::new();
    assert!(t.is_drained());
    t.register();
    t.register();
    assert!(!t.is_drained());
    t.deregister();
    assert!(!t.is_drained());
    t.deregister();
    assert!(t.is_drained());
}
