use clipboard_relay::clip::Clip;
use clipboard_relay::codec::encode_payload;
use clipboard_relay::config::Config;
use clipboard_relay::errors::HandshakeError;
use clipboard_relay::event_loop::{AuthOutcome, EventLoop};
use clipboard_relay::multiplexer::{InboundMessage, Multiplexer, SocketEvent};
use clipboard_relay::name::Name;
use clipboard_relay::payload::Payload;

fn test_config() -> Config {
    Config::new(String::from("localhost"), 3000, String::from("sekret"))
}

fn auth_frame(name: &str, token: &str) -> String {
    encode_payload(&Payload::auth(String::from(name), String::from(token)))
}

fn clip_frame(text: &str, timestamp: u64) -> String {
    encode_payload(&Payload::Clip(Clip { text: String::from(text), timestamp }))
}

/// Runs a full handshake for one client and returns its registered name.
fn join(el: &mut EventLoop, who: &str) -> Name {
    let id = el.accept();
    match el.authenticate(&id, Some(auth_frame(who, "sekret"))) {
        AuthOutcome::Promoted { name, .. } => name,
        _ => panic!("expected a promotion"),
    }
}

#[test]
fn accept_registers_a_pending_connection() {
    let mut el = EventLoop::new(test_config());
    let id = el.accept();
    assert_eq!(id.as_str().len(), 36);
    assert!(el.pending.contains(&id));
    assert_eq!(el.clients.len(), 0);
}

#[test]
fn successful_handshake_promotes() {
    let mut el = EventLoop::new(test_config());
    let id = el.accept();
    match el.authenticate(&id, Some(auth_frame("alice", "sekret"))) {
        AuthOutcome::Promoted { name, initial } => {
            assert_eq!(name.as_str(), "alice");
            assert!(initial.is_none());
            assert!(el.clients.contains(&name));
        }
        _ => panic!("expected a promotion"),
    }
    assert!(!el.pending.contains(&id));
}

#[test]
fn wrong_token_is_rejected_and_never_registered() {
    let mut el = EventLoop::new(test_config());
    let id = el.accept();
    match el.authenticate(&id, Some(auth_frame("mallory", "wrong"))) {
        AuthOutcome::Rejected(HandshakeError::Auth) => {}
        _ => panic!("expected an auth rejection"),
    }
    assert!(!el.pending.contains(&id));
    assert_eq!(el.clients.len(), 0);
    let mallory = Name::new(String::from("mallory")).unwrap();
    assert!(!el.clients.contains(&mallory));
}

#[test]
fn oversized_name_is_rejected_and_never_registered() {
    let mut el = EventLoop::new(test_config());
    let id = el.accept();
    let long = "x".repeat(65);
    match el.authenticate(&id, Some(auth_frame(&long, "sekret"))) {
        AuthOutcome::Rejected(HandshakeError::Validation) => {}
        _ => panic!("expected a validation rejection"),
    }
    assert_eq!(el.clients.len(), 0);
}

#[test]
fn token_is_checked_before_the_name() {
    let mut el = EventLoop::new(test_config());
    let id = el.accept();
    let long = "x".repeat(65);
    match el.authenticate(&id, Some(auth_frame(&long, "wrong"))) {
        AuthOutcome::Rejected(HandshakeError::Auth) => {}
        _ => panic!("expected an auth rejection"),
    }
}

#[test]
fn malformed_handshake_is_a_protocol_error() {
    let mut el = EventLoop::new(test_config());
    let id = el.accept();
    match el.authenticate(&id, Some(String::from("{\"weird\":1}"))) {
        AuthOutcome::Rejected(HandshakeError::Protocol) => {}
        _ => panic!("expected a protocol rejection"),
    }
    // a clip frame before authentication is also a protocol error
    let id2 = el.accept();
    match el.authenticate(&id2, Some(clip_frame("early", 1))) {
        AuthOutcome::Rejected(HandshakeError::Protocol) => {}
        _ => panic!("expected a protocol rejection"),
    }
    assert_eq!(el.clients.len(), 0);
}

#[test]
fn closed_before_auth_is_silent() {
    let mut el = EventLoop::new(test_config());
    let id = el.accept();
    match el.authenticate(&id, None) {
        AuthOutcome::Closed => {}
        _ => panic!("expected a closed outcome"),
    }
    assert!(!el.pending.contains(&id));
}

#[test]
fn echo_inclusive_broadcast() {
    let mut el = EventLoop::new(test_config());
    let a = join(&mut el, "a");
    let b = join(&mut el, "b");
    let must_broadcast = el.process_new_message(&a, InboundMessage::Text(clip_frame("foo", 100)));
    assert!(must_broadcast);
    // the broadcast targets are every registered connection, the sender included
    let targets = el.clients.names();
    assert_eq!(targets.len(), 2);
    assert!(el.clients.contains(&a));
    assert!(el.clients.contains(&b));
    assert_eq!(el.store.current().unwrap().text, "foo");
}

#[test]
fn late_joiner_sees_current_state() {
    let mut el = EventLoop::new(test_config());
    let a = join(&mut el, "a");
    assert!(el.process_new_message(&a, InboundMessage::Text(clip_frame("state", 100))));
    let id = el.accept();
    match el.authenticate(&id, Some(auth_frame("c", "sekret"))) {
        AuthOutcome::Promoted { name, initial } => {
            assert_eq!(name.as_str(), "c");
            let pushed = initial.expect("the newcomer must be offered the current clip");
            assert_eq!(pushed.text, "state");
            assert_eq!(pushed.timestamp, 100);
        }
        _ => panic!("expected a promotion"),
    }
}

#[test]
fn stale_clip_is_not_broadcast() {
    let mut el = EventLoop::new(test_config());
    let a = join(&mut el, "a");
    assert!(el.process_new_message(&a, InboundMessage::Text(clip_frame("new", 100))));
    assert!(!el.process_new_message(&a, InboundMessage::Text(clip_frame("old", 99))));
    assert!(!el.process_new_message(&a, InboundMessage::Text(clip_frame("new", 150))));
    assert_eq!(el.store.current().unwrap().text, "new");
    assert_eq!(el.store.current().unwrap().timestamp, 100);
}

#[test]
fn pong_is_dropped_quietly() {
    let mut el = EventLoop::new(test_config());
    let a = join(&mut el, "a");
    assert!(!el.process_new_message(&a, InboundMessage::Pong));
    assert!(el.clients.contains(&a));
    assert!(el.store.current().is_none());
}

#[test]
fn malformed_clip_disconnects_the_sender() {
    let mut el = EventLoop::new(test_config());
    let a = join(&mut el, "a");
    let b = join(&mut el, "b");
    assert!(!el.process_new_message(&a, InboundMessage::Text(String::from("garbage"))));
    assert!(!el.clients.contains(&a));
    assert!(el.clients.contains(&b));
}

#[test]
fn auth_message_after_promotion_disconnects() {
    let mut el = EventLoop::new(test_config());
    let a = join(&mut el, "a");
    assert!(!el.process_new_message(&a, InboundMessage::Text(auth_frame("a", "sekret"))));
    assert!(!el.clients.contains(&a));
}

#[test]
fn disconnect_pruning() {
    let mut el = EventLoop::new(test_config());
    let a = join(&mut el, "a");
    let b = join(&mut el, "b");
    let c = join(&mut el, "c");
    assert_eq!(el.clients.len(), 3);
    // a poll round: b's channel reports a read failure, nothing else is ready
    let events = vec![SocketEvent::Idle, SocketEvent::Closed, SocketEvent::Idle];
    let pulled = el.clients.pull(&events);
    assert!(pulled.is_none());
    // the next broadcast reaches only the remaining two
    let targets = el.clients.names();
    assert_eq!(targets.len(), 2);
    assert!(el.clients.contains(&a));
    assert!(!el.clients.contains(&b));
    assert!(el.clients.contains(&c));
    // a repeated pull never returns data for the pruned connection
    let again = el.clients.pull(&vec![SocketEvent::Idle, SocketEvent::Idle]);
    assert!(again.is_none());
}

#[test]
fn pull_yields_one_message_and_prunes_in_the_same_call() {
    let mut mux = Multiplexer::new();
    mux.insert(Name::new(String::from("a")).unwrap());
    mux.insert(Name::new(String::from("b")).unwrap());
    mux.insert(Name::new(String::from("c")).unwrap());
    let events = vec![
        SocketEvent::Closed,
        SocketEvent::Text(String::from("payload")),
        SocketEvent::Pong,
    ];
    match mux.pull(&events) {
        Some((name, InboundMessage::Text(t))) => {
            assert_eq!(name.as_str(), "b");
            assert_eq!(t, "payload");
        }
        _ => panic!("expected the first ready text frame"),
    }
    // the closed channel was pruned even though it was not the one returned
    assert_eq!(mux.len(), 2);
    assert!(!mux.contains(&Name::new(String::from("a")).unwrap()));
}

#[test]
fn broadcast_failures_are_pruned() {
    let mut mux = Multiplexer::new();
    mux.insert(Name::new(String::from("a")).unwrap());
    mux.insert(Name::new(String::from("b")).unwrap());
    mux.insert(Name::new(String::from("c")).unwrap());
    // a broadcast round: the write to b failed
    mux.prune(&vec![false, true, false]);
    assert_eq!(mux.len(), 2);
    assert!(mux.contains(&Name::new(String::from("a")).unwrap()));
    assert!(!mux.contains(&Name::new(String::from("b")).unwrap()));
    assert!(mux.contains(&Name::new(String::from("c")).unwrap()));
}

#[test]
fn registry_keeps_names_unique() {
    let mut mux = Multiplexer::new();
    mux.insert(Name::new(String::from("a")).unwrap());
    mux.insert(Name::new(String::from("a")).unwrap());
    assert_eq!(mux.len(), 1);
    assert!(mux.remove(&Name::new(String::from("a")).unwrap()));
    assert_eq!(mux.len(), 0);
    assert!(!mux.remove(&Name::new(String::from("a")).unwrap()));
}

#[test]
fn reconnecting_name_stays_registered_once() {
    let mut el = EventLoop::new(test_config());
    let a1 = join(&mut el, "a");
    let a2 = join(&mut el, "a");
    assert_eq!(a1.as_str(), a2.as_str());
    assert_eq!(el.clients.len(), 1);
}

#[test]
fn non_text_frame_disconnects_via_pull() {
    let mut mux = Multiplexer::new();
    mux.insert(Name::new(String::from("a")).unwrap());
    let pulled = mux.pull(&vec![SocketEvent::Other]);
    assert!(pulled.is_none());
    assert_eq!(mux.len(), 0);
}

#[test]
fn pull_yields_a_pong() {
    let mut mux = Multiplexer::new();
    mux.insert(Name::new(String::from("a")).unwrap());
    match mux.pull(&vec![SocketEvent::Pong]) {
        Some((name, InboundMessage::Pong)) => assert_eq!(name.as_str(), "a"),
        _ => panic!("expected a pong"),
    }
    assert_eq!(mux.len(), 1);
}

#[test]
fn pull_with_all_idle_yields_nothing() {
    let mut mux = Multiplexer::new();
    mux.insert(Name::new(String::from("a")).unwrap());
    mux.insert(Name::new(String::from("b")).unwrap());
    assert!(mux.pull(&vec![SocketEvent::Idle, SocketEvent::Idle]).is_none());
    assert_eq!(mux.len(), 2);
}
