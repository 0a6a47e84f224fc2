use std::pin::Pin;
use std::task::{Context, Poll};

use actix_web::body::MessageBody;
use actix_web_lab::sse::{ChannelStream, Sse};
use futures_util::task::noop_waker;
use llm_server::broadcast::{Broadcaster, Delivery, QUEUE_CAPACITY};

/// Reads every event queued for a viewer so far, as raw event-stream text.
fn drain(sse: &mut Sse<ChannelStream>) -> Vec<String> {
    let waker = noop_waker();
    let mut cx = Context::from_waker(&waker);
    let mut events = Vec::new();
    loop {
        match Pin::new(&mut *sse).poll_next(&mut cx) {
            Poll::Ready(Some(Ok(bytes))) => events.push(String::from_utf8(bytes.to_vec()).unwrap()),
            Poll::Ready(Some(Err(_))) => panic!("event stream failed"),
            Poll::Ready(None) | Poll::Pending => return events,
        }
    }
}

fn data(payload: &str) -> String {
    format!("data: {}\n\n", payload)
}

#[test]
fn create_is_empty() {
    let b = Broadcaster::create();
    assert_eq!(b.len(), 0);
    assert!(b.snapshot_ids().is_empty());
}

#[test]
fn new_client_sends_keepalive_first() {
    let mut b = Broadcaster::create();
    let mut a = b.new_client().unwrap();
    assert_eq!(drain(&mut a), vec![data("")]);
    assert_eq!(b.snapshot_ids(), vec![0]);
}

#[test]
fn identifiers_are_fresh_and_in_order() {
    let mut b = Broadcaster::create();
    let _a = b.new_client().unwrap();
    let _c = b.new_client().unwrap();
    let _d = b.new_client().unwrap();
    assert_eq!(b.snapshot_ids(), vec![0, 1, 2]);
}

#[test]
fn single_viewer_receives_hello_once() {
    let mut b = Broadcaster::create();
    let mut a = b.new_client().unwrap();
    drain(&mut a);
    let r = b.broadcast("hello");
    assert_eq!(r, vec![Delivery { id: 0, accepted: true }]);
    assert_eq!(drain(&mut a), vec![data("hello")]);
}

#[test]
fn sweep_after_close_leaves_only_live_viewer() {
    let mut b = Broadcaster::create();
    let a = b.new_client().unwrap();
    let mut v = b.new_client().unwrap();
    drain(&mut v);
    drop(a);
    let probes = b.remove_stale_clients();
    assert_eq!(
        probes,
        vec![Delivery { id: 0, accepted: false }, Delivery { id: 1, accepted: true }]
    );
    assert_eq!(b.len(), 1);
    let r = b.broadcast("x");
    assert_eq!(r, vec![Delivery { id: 1, accepted: true }]);
    assert_eq!(drain(&mut v), vec![data("connected"), data("x")]);
}

#[test]
fn register_then_sweep_evicts_nobody() {
    let mut b = Broadcaster::create();
    let _a = b.new_client().unwrap();
    let _c = b.new_client().unwrap();
    let before = b.len();
    let probes = b.remove_stale_clients();
    assert!(probes.iter().all(|d| d.accepted));
    assert_eq!(b.len(), before);
    assert_eq!(b.snapshot_ids(), vec![0, 1]);
}

#[test]
fn messages_arrive_in_broadcast_order() {
    let mut b = Broadcaster::create();
    let mut viewers: Vec<Sse<ChannelStream>> = Vec::new();
    for _ in 0..3 {
        let mut v = b.new_client().unwrap();
        drain(&mut v);
        viewers.push(v);
    }
    let msgs = ["one", "two", "three", "four"];
    for m in msgs.iter() {
        let r = b.broadcast(m);
        assert!(r.iter().all(|d| d.accepted));
    }
    for v in viewers.iter_mut() {
        let expected: Vec<String> = msgs.iter().map(|m| data(m)).collect();
        assert_eq!(drain(v), expected);
    }
}

#[test]
fn evicted_viewer_stays_out_of_later_broadcasts() {
    let mut b = Broadcaster::create();
    let a = b.new_client().unwrap();
    drop(a);
    b.remove_stale_clients();
    let _c = b.new_client().unwrap();
    let r = b.broadcast("later");
    assert_eq!(r, vec![Delivery { id: 1, accepted: true }]);
    b.remove_stale_clients();
    assert_eq!(b.snapshot_ids(), vec![1]);
}

#[test]
fn full_queue_is_a_failed_delivery() {
    let mut b = Broadcaster::create();
    let mut a = b.new_client().unwrap();
    // the keepalive already occupies one slot of the queue
    for _ in 1..QUEUE_CAPACITY {
        assert_eq!(b.broadcast("fill"), vec![Delivery { id: 0, accepted: true }]);
    }
    assert_eq!(b.broadcast("over"), vec![Delivery { id: 0, accepted: false }]);
    let events = drain(&mut a);
    assert_eq!(events.len(), QUEUE_CAPACITY);
    assert!(!events.contains(&data("over")));
    // a full queue also fails the probe, which evicts the subscriber
    b.new_client().unwrap();
    for _ in 1..QUEUE_CAPACITY {
        b.broadcast("fill");
    }
    let probes = b.remove_stale_clients();
    assert_eq!(probes[1], Delivery { id: 1, accepted: false });
    assert_eq!(b.snapshot_ids(), vec![0]);
}

#[test]
fn broadcast_to_nobody_is_empty() {
    let mut b = Broadcaster::create();
    assert!(b.broadcast("lonely").is_empty());
}

#[test]
fn registration_sends_nothing_to_existing_viewers() {
    let mut b = Broadcaster::create();
    let mut a = b.new_client().unwrap();
    drain(&mut a);
    let mut c = b.new_client().unwrap();
    assert!(drain(&mut a).is_empty());
    assert_eq!(drain(&mut c), vec![data("")]);
}

#[test]
fn failed_viewer_does_not_stop_others() {
    let mut b = Broadcaster::create();
    let a = b.new_client().unwrap();
    let mut c = b.new_client().unwrap();
    drain(&mut c);
    drop(a);
    let r = b.broadcast("y");
    assert_eq!(
        r,
        vec![Delivery { id: 0, accepted: false }, Delivery { id: 1, accepted: true }]
    );
    assert_eq!(drain(&mut c), vec![data("y")]);
    assert_eq!(b.len(), 2);
}
