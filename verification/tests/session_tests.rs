use backend::session::{Event, Frame, Session};

#[test]
fn new_session_is_open() {
    let s = Session::new();
    assert!(!s.is_closed());
}

#[test]
fn text_frame_no_reply_still_open() {
    let mut s = Session::new();
    let reply = s.handle_event(Event::Received(Frame::Text(b"hello".to_vec())));
    assert!(reply.is_none());
    assert!(!s.is_closed());
}

#[test]
fn binary_frame_no_reply_still_open() {
    let mut s = Session::new();
    let reply = s.handle_event(Event::Received(Frame::Binary(vec![0, 1, 2, 255])));
    assert!(reply.is_none());
    assert!(!s.is_closed());
}

#[test]
fn ping_and_pong_keep_loop_open() {
    let mut s = Session::new();
    let reply = s.handle_event(Event::Received(Frame::Ping(vec![7])));
    assert!(reply.is_none());
    assert!(!s.is_closed());
    let reply = s.handle_event(Event::Received(Frame::Pong(vec![7])));
    assert!(reply.is_none());
    assert!(!s.is_closed());
}

#[test]
fn close_frame_ends_loop() {
    let mut s = Session::new();
    let reply = s.handle_event(Event::Received(Frame::Close));
    assert!(reply.is_none());
    assert!(s.is_closed());
}

#[test]
fn close_twice_has_no_additional_effect() {
    let mut s = Session::new();
    let first = s.handle_event(Event::Received(Frame::Close));
    assert!(first.is_none());
    assert!(s.is_closed());
    let second = s.handle_event(Event::Received(Frame::Close));
    assert!(second.is_none());
    assert!(s.is_closed());
}

#[test]
fn recv_error_ends_loop() {
    let mut s = Session::new();
    let reply = s.handle_event(Event::RecvError);
    assert!(reply.is_none());
    assert!(s.is_closed());
}

#[test]
fn transport_drop_ends_loop() {
    let mut s = Session::new();
    let reply = s.handle_event(Event::Dropped);
    assert!(reply.is_none());
    assert!(s.is_closed());
}

#[test]
fn run_discards_every_data_frame_and_stays_open() {
    let mut s = Session::new();
    let events = vec![
        Event::Received(Frame::Text(b"one".to_vec())),
        Event::Received(Frame::Binary(vec![1, 2, 3])),
        Event::Received(Frame::Ping(vec![])),
        Event::Received(Frame::Pong(vec![])),
        Event::Received(Frame::Text(b"two".to_vec())),
    ];
    let replies = s.run(events);
    assert!(replies.is_empty());
    assert!(!s.is_closed());
}

#[test]
fn run_ends_at_close_and_sends_nothing_after() {
    let mut s = Session::new();
    let events = vec![
        Event::Received(Frame::Text(b"before".to_vec())),
        Event::Received(Frame::Close),
        Event::Received(Frame::Text(b"after".to_vec())),
    ];
    let replies = s.run(events);
    assert!(replies.is_empty());
    assert!(s.is_closed());
}

#[test]
fn two_clients_are_isolated() {
    let mut a = Session::new();
    let mut b = Session::new();
    let replies_a = a.run(vec![
        Event::Received(Frame::Text(b"only for the server".to_vec())),
        Event::Received(Frame::Binary(vec![42])),
        Event::Received(Frame::Close),
    ]);
    // Nothing that client A sent produced a frame that could reach client B,
    // and client B's loop is untouched by A's whole session.
    assert!(replies_a.is_empty());
    assert!(a.is_closed());
    assert!(!b.is_closed());
    let replies_b = b.run(vec![Event::Received(Frame::Text(b"b".to_vec()))]);
    assert!(replies_b.is_empty());
    assert!(!b.is_closed());
}
