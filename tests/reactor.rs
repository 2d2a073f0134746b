use rustatsd::metrics::{Rate, StatKind, StatMsg};
use rustatsd::reactor::{Action, Event, Reactor, StopReason, CHANNEL_SOURCE, SOCKET_SOURCE};

fn is_stop(a: &Action, why: StopReason) -> bool {
    matches!(a, Action::Stop(w) if *w == why)
}

#[test]
fn socket_ready_receives() {
    let mut r = Reactor::new();
    assert!(matches!(r.on_event(Event::Ready { source: SOCKET_SOURCE, readable: true }), Action::Receive));
    assert!(matches!(r.on_event(Event::Ready { source: SOCKET_SOURCE, readable: false }), Action::Wait));
    assert_eq!(r.stop_reason(), None);
}

#[test]
fn channel_ready_takes_a_message() {
    let mut r = Reactor::new();
    assert!(matches!(r.on_event(Event::Ready { source: CHANNEL_SOURCE, readable: true }), Action::TakeControl));
    match r.on_event(Event::Control("reload".to_string())) {
        Action::Note(m) => assert_eq!(m, "reload"),
        _ => panic!("expected a note"),
    }
    assert!(matches!(r.on_event(Event::ControlEmpty), Action::Wait));
}

#[test]
fn unknown_source_stops() {
    let mut r = Reactor::new();
    let a = r.on_event(Event::Ready { source: 7, readable: true });
    assert!(is_stop(&a, StopReason::UnknownSource));
    assert_eq!(r.stop_reason(), Some(StopReason::UnknownSource));
}

#[test]
fn datagram_is_decoded_and_delivered() {
    let mut r = Reactor::new();
    match r.on_event(Event::Datagram(b"test.key:+23|g".to_vec())) {
        Action::Deliver(Ok(m)) => assert_eq!(
            m,
            StatMsg::Inc(StatKind::Gauge, "test.key".to_string(), 23, Rate { mantissa: 1, scale: 0 })
        ),
        _ => panic!("expected a delivery"),
    }
    match r.on_event(Event::Datagram(b"test.key:1|x".to_vec())) {
        Action::Deliver(Err(_)) => {}
        _ => panic!("expected a parse error to be delivered"),
    }
    assert_eq!(r.stop_reason(), None);
}

#[test]
fn invalid_utf8_stops() {
    let mut r = Reactor::new();
    let a = r.on_event(Event::Datagram(vec![0x61, 0xff, 0x3a]));
    assert!(is_stop(&a, StopReason::NotUtf8));
    assert_eq!(r.stop_reason(), Some(StopReason::NotUtf8));
}

#[test]
fn receive_outcomes() {
    let mut r = Reactor::new();
    let a = r.on_event(Event::RecvFailed);
    assert!(is_stop(&a, StopReason::SocketError));
    assert_eq!(r.stop_reason(), Some(StopReason::SocketError));
    let mut r = Reactor::new();
    let a = r.on_event(Event::WouldBlock);
    assert!(is_stop(&a, StopReason::NothingReceived));
    assert_eq!(r.stop_reason(), Some(StopReason::NothingReceived));
}

#[test]
fn stopped_loop_stays_stopped() {
    let mut r = Reactor::new();
    let a = r.on_event(Event::Cancelled);
    assert!(is_stop(&a, StopReason::Cancelled));
    let a = r.on_event(Event::Ready { source: SOCKET_SOURCE, readable: true });
    assert!(is_stop(&a, StopReason::Cancelled));
    let a = r.on_event(Event::RecvFailed);
    assert!(is_stop(&a, StopReason::Cancelled));
    assert_eq!(r.stop_reason(), Some(StopReason::Cancelled));
}
