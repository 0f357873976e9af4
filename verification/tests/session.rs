use log_session::codec::decode_request;
use log_session::{ConnState, Layers, Session, SessionState, SocketManager, Verbosity, WireEvent};

fn record(text: &str) -> WireEvent {
    WireEvent::Text(text.to_owned())
}

fn connected_session() -> Session {
    let mut s = Session::new();
    s.begin_connect("ws://192.0.2.10:9001");
    s.poll(vec![WireEvent::Opened]);
    s
}

fn fill(s: &mut Session, n: usize) {
    let mut evs = Vec::new();
    for i in 0..n {
        evs.push(record(&format!("{{\"record\":{}}}", i)));
    }
    s.poll(evs);
}

#[test]
fn fresh_session_is_disconnected_and_empty() {
    let s = Session::new();
    assert_eq!(s.connection_state(), ConnState::Disconnected);
    assert_eq!(s.session_state(), SessionState::Idle);
    assert_eq!(s.buffer_len(), 0);
    assert_eq!(s.cursor(), 0);
    assert_eq!(s.next_request_id(), 1);
    assert!(s.last_error().is_none());
}

#[test]
fn connect_then_open_reports_connected() {
    let mut s = Session::new();
    s.begin_connect("ws://192.0.2.10:9001");
    assert_eq!(s.connection_state(), ConnState::Connecting);
    assert_eq!(s.endpoint().unwrap().as_str(), "ws://192.0.2.10:9001");
    s.poll(vec![WireEvent::Opened]);
    assert_eq!(s.connection_state(), ConnState::Connected);
    assert_eq!(s.session_state(), SessionState::Idle);
}

#[test]
fn first_fetch_then_synchronous_advance() {
    // Scenario: advance on an empty buffer issues request 1; three records
    // arrive; the next advance is served from the buffer with no request.
    let mut s = connected_session();
    let msg = s.advance(1).expect("advance on an empty buffer must fetch");
    let req = decode_request(&msg).expect("issued request must be well-formed");
    assert_eq!(req.message_id, 1);
    assert_eq!(s.session_state(), SessionState::AwaitingResponse(1));
    fill(&mut s, 3);
    assert_eq!(s.buffer_len(), 3);
    assert_eq!(s.session_state(), SessionState::Idle);
    assert_eq!(s.cursor(), 0);
    let act = s.advance(1);
    assert!(act.is_none());
    assert_eq!(s.cursor(), 1);
    assert_eq!(s.session_state(), SessionState::Idle);
}

#[test]
fn advance_issues_single_request_with_increasing_ids() {
    let mut s = connected_session();
    let first = s.advance(5).expect("first advance past the tail must fetch");
    assert_eq!(decode_request(&first).unwrap().message_id, 1);
    // Still awaiting: further advances issue nothing.
    assert!(s.advance(5).is_none());
    assert!(s.advance(1).is_none());
    assert_eq!(s.session_state(), SessionState::AwaitingResponse(1));
    // Resolve it; the next fetch carries id 2.
    fill(&mut s, 1);
    assert_eq!(s.session_state(), SessionState::Idle);
    let second = s.advance(5).expect("advance past the tail must fetch again");
    assert_eq!(decode_request(&second).unwrap().message_id, 2);
}

#[test]
fn advance_request_covers_missing_range() {
    let mut s = connected_session();
    let msg = s.advance(5000).expect("advance far past the tail must fetch");
    let req = decode_request(&msg).unwrap();
    assert_eq!(req.min, 5000);
    assert_eq!(req.max, 5000);
    assert_eq!(req.timeout, 1);
    let mut t = connected_session();
    let msg = t.advance(3).expect("small advance past the tail must fetch");
    let req = decode_request(&msg).unwrap();
    assert_eq!(req.min, 64);
    assert_eq!(req.max, 2048);
}

#[test]
fn advance_retreat_restores_cursor_without_requests() {
    let mut s = connected_session();
    fill(&mut s, 4);
    assert!(s.advance(3).is_none());
    assert_eq!(s.cursor(), 3);
    s.retreat(3);
    assert_eq!(s.cursor(), 0);
    assert_eq!(s.buffer_len(), 4);
    assert_eq!(s.session_state(), SessionState::Idle);
}

#[test]
fn retreat_stops_at_zero_and_never_fetches() {
    let mut s = connected_session();
    fill(&mut s, 2);
    assert!(s.advance(2).is_none());
    s.retreat(100);
    assert_eq!(s.cursor(), 0);
    assert_eq!(s.buffer_len(), 2);
    assert_eq!(s.session_state(), SessionState::Idle);
}

#[test]
fn malformed_payload_changes_nothing() {
    let mut s = connected_session();
    fill(&mut s, 2);
    assert!(s.advance(1).is_none());
    let before_len = s.buffer_len();
    let before_cursor = s.cursor();
    s.poll(vec![record("not a braced object"), record(""), WireEvent::NonText]);
    assert_eq!(s.buffer_len(), before_len);
    assert_eq!(s.cursor(), before_cursor);
    assert_eq!(s.connection_state(), ConnState::Connected);
    assert_eq!(s.session_state(), SessionState::Idle);
}

#[test]
fn poll_appends_valid_records_in_arrival_order() {
    let mut s = connected_session();
    s.poll(vec![
        record("{\"n\":0}"),
        record("junk"),
        record("{\"n\":1}"),
        WireEvent::NonText,
        record("{\"n\":2}"),
    ]);
    assert_eq!(s.buffer_len(), 3);
    assert_eq!(s.event_at(0).unwrap().text, "{\"n\":0}");
    assert_eq!(s.event_at(1).unwrap().text, "{\"n\":1}");
    assert_eq!(s.event_at(2).unwrap().text, "{\"n\":2}");
    assert!(s.event_at(3).is_none());
}

#[test]
fn connection_lost_while_awaiting_is_an_error_and_reconnect_resets() {
    // Scenario: the connection fails while request 2 is outstanding; the
    // session surfaces the error and keeps the buffer; reconnecting starts
    // the buffer and the correlation counter over.
    let mut s = connected_session();
    let first = s.request_more().expect("idle connected session must fetch");
    assert_eq!(decode_request(&first).unwrap().message_id, 1);
    fill(&mut s, 2);
    let second = s.request_more().expect("resolved session must fetch again");
    assert_eq!(decode_request(&second).unwrap().message_id, 2);
    assert_eq!(s.session_state(), SessionState::AwaitingResponse(2));

    s.poll(vec![WireEvent::ConnFailed("connection lost".to_owned())]);
    assert_eq!(s.session_state(), SessionState::Failed);
    assert_eq!(s.connection_state(), ConnState::Failed);
    assert_eq!(s.buffer_len(), 2);
    assert_eq!(s.last_error().unwrap().as_str(), "connection lost");

    s.begin_connect("ws://192.0.2.10:9001");
    assert_eq!(s.buffer_len(), 0);
    assert_eq!(s.cursor(), 0);
    assert_eq!(s.next_request_id(), 1);
    assert_eq!(s.session_state(), SessionState::Idle);
    assert!(s.last_error().is_none());
}

#[test]
fn peer_close_while_awaiting_is_an_error_too() {
    let mut s = connected_session();
    s.request_more().expect("idle connected session must fetch");
    s.poll(vec![WireEvent::ConnClosed]);
    assert_eq!(s.session_state(), SessionState::Failed);
    assert_eq!(s.connection_state(), ConnState::Disconnected);
}

#[test]
fn request_more_respects_single_in_flight() {
    let mut s = connected_session();
    assert!(s.request_more().is_some());
    assert!(s.request_more().is_none());
    assert_eq!(s.session_state(), SessionState::AwaitingResponse(1));
}

#[test]
fn no_request_unless_connected_and_idle() {
    let mut s = Session::new();
    assert!(s.advance(1).is_none());
    assert!(s.request_more().is_none());
    s.begin_connect("ws://192.0.2.10:9001");
    // Still only connecting: no request yet.
    assert!(s.advance(1).is_none());
    s.poll(vec![WireEvent::Opened]);
    assert!(s.advance(1).is_some());
}

#[test]
fn close_is_idempotent_and_keeps_the_buffer() {
    let mut s = connected_session();
    fill(&mut s, 3);
    s.close();
    assert_eq!(s.connection_state(), ConnState::Disconnected);
    assert_eq!(s.buffer_len(), 3);
    s.close();
    assert_eq!(s.connection_state(), ConnState::Disconnected);
    assert_eq!(s.buffer_len(), 3);
}

#[test]
fn current_window_shows_the_page_behind_the_cursor() {
    let mut s = connected_session();
    fill(&mut s, 5);
    assert!(s.advance(3).is_none());
    let win = s.current_window(2);
    assert_eq!(win.len(), 2);
    assert_eq!(win[0].text, "{\"record\":1}");
    assert_eq!(win[1].text, "{\"record\":2}");
    let all = s.current_window(10);
    assert_eq!(all.len(), 3);
    assert_eq!(all[0].text, "{\"record\":0}");
}

#[test]
fn session_filter_is_attached_to_requests() {
    let mut s = connected_session();
    let mut f = Layers::new();
    f.phy = Verbosity::Dbg;
    f.rrc = Verbosity::Wrn;
    s.set_filter(f);
    let msg = s.request_more().expect("idle connected session must fetch");
    let req = decode_request(&msg).unwrap();
    assert_eq!(req.layers, f);
}

#[test]
fn socket_manager_issues_increasing_ids() {
    let mut m = SocketManager::new();
    assert_eq!(m.current_id(), 1);
    let first = m.get_more_logs().expect("fresh manager must build a request");
    let req = decode_request(&first).expect("built request must be well-formed");
    assert_eq!(req.message_id, 1);
    assert_eq!(req.min, 64);
    assert_eq!(req.max, 2048);
    assert_eq!(req.layers, Layers::new());
    let second = m.get_more_logs().expect("manager must keep building requests");
    assert_eq!(decode_request(&second).unwrap().message_id, 2);
    assert_eq!(m.current_id(), 3);
}
