use sseplex::broker::SSEEvent;
use sseplex::session::{SSEClient, SessionState};
use sseplex::text::{decimal_string, frame, heartbeat_event_text};

fn event(topic: &str, text: &str) -> SSEEvent {
    SSEEvent { topic: topic.to_string(), text: text.to_string() }
}

#[test]
fn session_lifecycle() {
    let mut s = SSEClient::new("news".to_string(), 5);
    assert_eq!(s.state(), SessionState::Starting);
    let c = s.started();
    assert_eq!(c.topic, "news");
    assert_eq!(c.addr, 5);
    assert!(s.handle(&event("news", "early")).is_none());
    s.connect_result(true);
    assert_eq!(s.state(), SessionState::Active);
    assert_eq!(s.handle(&event("news", "hello")), Some("data: hello\n\n".to_string()));
    s.transport_closed();
    assert_eq!(s.state(), SessionState::Stopping);
    let d = s.stopping().expect("a disconnect");
    assert_eq!(d.addr, 5);
    assert_eq!(s.state(), SessionState::Stopped);
    assert!(s.stopping().is_none());
}

#[test]
fn session_filters_other_topics() {
    let mut s = SSEClient::new("news".to_string(), 1);
    s.connect_result(true);
    assert!(s.handle(&event("sports", "goal")).is_none());
    assert!(s.handle(&event("news", "x")).is_some());
}

#[test]
fn session_stops_when_connect_fails() {
    let mut s = SSEClient::new("news".to_string(), 1);
    s.connect_result(false);
    assert_eq!(s.state(), SessionState::Stopped);
    assert!(s.stopping().is_none());
    assert!(s.handle(&event("news", "x")).is_none());
}

#[test]
fn session_write_failure_stops() {
    let mut s = SSEClient::new("t".to_string(), 2);
    s.connect_result(true);
    s.write_result(true);
    assert_eq!(s.state(), SessionState::Active);
    s.write_result(false);
    assert_eq!(s.state(), SessionState::Stopping);
    assert_eq!(s.stopping().map(|d| d.addr), Some(2));
}

#[test]
fn frames_and_numbers() {
    assert_eq!(frame("abc"), "data: abc\n\n");
    assert_eq!(frame(""), "data: \n\n");
    assert_eq!(decimal_string(0), "0");
    assert_eq!(decimal_string(1234), "1234");
    assert_eq!(decimal_string(u64::MAX), "18446744073709551615");
    assert_eq!(heartbeat_event_text(42), "event 42");
}
