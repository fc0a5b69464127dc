use bytes::BytesMut;
use ws_relay::directory::Directory;
use ws_relay::engine::{
    dispatch_roster, handle_command, reader_step, relay, session_step, Payload, ReadEvent,
    ReadStep, SessionEvent, SessionState,
};
use ws_relay::frame::set_text;

fn dir_with(ids: &[&str]) -> Directory {
    let mut dir = Directory::new();
    for (i, id) in ids.iter().enumerate() {
        dir.join(&id.to_string(), i as u64, &"Guest".to_string());
    }
    dir
}

#[test]
fn join_then_leave_restores_empty_directory() {
    let mut dir = Directory::new();
    dir.join(&"alpha".to_string(), 1, &"Guest".to_string());
    assert_eq!(dir.len(), 1);
    dir.leave(&"alpha".to_string());
    assert_eq!(dir.len(), 0);
    assert!(!dir.contains(&"alpha".to_string()));
}

#[test]
fn join_overwrites_same_identity() {
    let mut dir = Directory::new();
    dir.join(&"a".to_string(), 1, &"one".to_string());
    dir.join(&"a".to_string(), 2, &"two".to_string());
    assert_eq!(dir.len(), 1);
    let u = dir.get(&"a".to_string()).unwrap();
    assert_eq!(u.name, "two");
    assert_eq!(u.conn, 2);
    assert!(u.public_key.is_none());
}

#[test]
fn distinct_joins_both_land() {
    let mut dir = Directory::new();
    dir.join(&"a".to_string(), 1, &"Guest".to_string());
    dir.join(&"b".to_string(), 2, &"Guest".to_string());
    assert_eq!(dir.len(), 2);
    assert!(dir.contains(&"a".to_string()));
    assert!(dir.contains(&"b".to_string()));
}

#[test]
fn set_identity_promotes_existing_record() {
    let mut dir = dir_with(&["a"]);
    dir.set_identity(&"a".to_string(), &"Ann".to_string(), &"feed".to_string());
    let u = dir.get(&"a".to_string()).unwrap();
    assert_eq!(u.name, "Ann");
    assert_eq!(u.public_key.as_deref(), Some("feed"));
    assert_eq!(u.conn, 0);
}

#[test]
fn set_identity_on_absent_is_noop() {
    let mut dir = dir_with(&["a"]);
    dir.set_identity(&"ghost".to_string(), &"X".to_string(), &"00".to_string());
    assert_eq!(dir.len(), 1);
    assert!(!dir.contains(&"ghost".to_string()));
}

#[test]
fn roster_counts_for_fourth_peer() {
    let mut dir = dir_with(&["a", "b", "c", "d"]);
    dir.set_identity(&"d".to_string(), &"Dee".to_string(), &"beef".to_string());
    let deliveries = dispatch_roster(&dir, &"d".to_string());
    assert_eq!(deliveries.len(), 6);
    let to_new = deliveries.iter().filter(|d| d.to == "d").count();
    assert_eq!(to_new, 3);
    for other in ["a", "b", "c"] {
        let to_other: Vec<_> = deliveries.iter().filter(|d| d.to == other).collect();
        assert_eq!(to_other.len(), 1);
        match &to_other[0].message {
            Payload::NewUser { user } => {
                assert_eq!(user.id, "d");
                assert_eq!(user.name, "Dee");
                assert_eq!(user.public_key.as_deref(), Some("beef"));
            }
            _ => panic!("expected a new_user notice"),
        }
    }
    for d in deliveries.iter().filter(|d| d.to == "d") {
        match &d.message {
            Payload::NewUser { user } => assert_ne!(user.id, "d"),
            _ => panic!("expected a new_user notice"),
        }
    }
}

#[test]
fn roster_for_absent_peer_is_empty() {
    let dir = dir_with(&["a", "b"]);
    assert!(dispatch_roster(&dir, &"ghost".to_string()).is_empty());
}

#[test]
fn relay_to_absent_recipient_drops_silently() {
    let dir = dir_with(&["a"]);
    let r = relay(
        &dir,
        &"a".to_string(),
        &"ghost".to_string(),
        &"cafe".to_string(),
        None,
    );
    assert!(r.is_none());
}

#[test]
fn relay_to_present_recipient_delivers_envelope() {
    let dir = dir_with(&["a", "b"]);
    let d = relay(
        &dir,
        &"a".to_string(),
        &"b".to_string(),
        &"cafe".to_string(),
        Some("g1".to_string()),
    )
    .expect("recipient is present");
    assert_eq!(d.to, "b");
    match d.message {
        Payload::RelayMessage { sender, payload, group_id } => {
            assert_eq!(sender, "a");
            assert_eq!(payload, "cafe");
            assert_eq!(group_id.as_deref(), Some("g1"));
        }
        _ => panic!("expected a relay_message envelope"),
    }
}

#[test]
fn handle_first_command_identifies_and_syncs() {
    let mut dir = dir_with(&["a", "b"]);
    let deliveries = handle_command(
        &mut dir,
        &"b".to_string(),
        Payload::First { public_key: "beef".to_string(), name: "Bee".to_string() },
    );
    assert_eq!(dir.get(&"b".to_string()).unwrap().public_key.as_deref(), Some("beef"));
    assert_eq!(deliveries.len(), 2);
    assert_eq!(deliveries[0].to, "a");
    assert_eq!(deliveries[1].to, "b");
}

#[test]
fn handle_send_message_relays() {
    let mut dir = dir_with(&["a", "b"]);
    let deliveries = handle_command(
        &mut dir,
        &"a".to_string(),
        Payload::SendMessage {
            recipient: "b".to_string(),
            payload: "00ff".to_string(),
            group_id: None,
        },
    );
    assert_eq!(deliveries.len(), 1);
    assert_eq!(deliveries[0].to, "b");
}

#[test]
fn handle_server_kind_is_ignored() {
    let mut dir = dir_with(&["a"]);
    let deliveries = handle_command(
        &mut dir,
        &"a".to_string(),
        Payload::UserLeft { user_id: "x".to_string() },
    );
    assert!(deliveries.is_empty());
    assert_eq!(dir.len(), 1);
}

#[test]
fn session_walks_its_states_in_order() {
    let s = SessionState::Connecting;
    let s = session_step(s, SessionEvent::Upgraded);
    assert_eq!(s, SessionState::Negotiated);
    let s = session_step(s, SessionEvent::Joined);
    assert_eq!(s, SessionState::Anonymous);
    let s = session_step(s, SessionEvent::FirstCommand);
    assert_eq!(s, SessionState::Identified);
    let s = session_step(s, SessionEvent::ConnectionClosed);
    assert_eq!(s, SessionState::Closed);
}

#[test]
fn session_ignores_out_of_order_events_and_close_always_ends() {
    assert_eq!(
        session_step(SessionState::Connecting, SessionEvent::FirstCommand),
        SessionState::Connecting
    );
    assert_eq!(
        session_step(SessionState::Identified, SessionEvent::Upgraded),
        SessionState::Identified
    );
    assert_eq!(
        session_step(SessionState::Connecting, SessionEvent::ConnectionClosed),
        SessionState::Closed
    );
    assert_eq!(
        session_step(SessionState::Closed, SessionEvent::Joined),
        SessionState::Closed
    );
}

#[test]
fn reader_step_timeout_polls_again() {
    let mut dir = dir_with(&["a"]);
    assert!(matches!(
        reader_step(&mut dir, &"a".to_string(), ReadEvent::NotReady),
        ReadStep::Poll
    ));
    assert_eq!(dir.len(), 1);
}

#[test]
fn reader_step_close_departs_and_notifies() {
    let mut dir = dir_with(&["a", "b", "c"]);
    let step = reader_step(&mut dir, &"b".to_string(), ReadEvent::Closed);
    assert_eq!(dir.len(), 2);
    assert!(!dir.contains(&"b".to_string()));
    match step {
        ReadStep::Stop(ds) => {
            assert_eq!(ds.len(), 2);
            for d in &ds {
                match &d.message {
                    Payload::UserLeft { user_id } => assert_eq!(user_id, "b"),
                    _ => panic!("expected a user_left notice"),
                }
            }
            assert_eq!(ds[0].to, "a");
            assert_eq!(ds[1].to, "c");
        }
        _ => panic!("expected the loop to stop"),
    }
}

#[test]
fn reader_step_hands_frame_text_back() {
    let mut dir = dir_with(&["a"]);
    let mut buf = BytesMut::with_capacity(64);
    let _ = set_text(&mut buf, "{\"kind\":\"first\"}");
    let step = reader_step(&mut dir, &"a".to_string(), ReadEvent::Data(buf[..].to_vec()));
    match step {
        ReadStep::Command(s) => assert_eq!(s, "{\"kind\":\"first\"}"),
        _ => panic!("expected a command"),
    }
}

#[test]
fn reader_step_skips_malformed_and_empty_frames() {
    let mut dir = dir_with(&["a"]);
    let garbage = vec![0x81, 200, 1];
    assert!(matches!(
        reader_step(&mut dir, &"a".to_string(), ReadEvent::Data(garbage)),
        ReadStep::Ignore
    ));
    let empty_frame = vec![0x81, 0];
    assert!(matches!(
        reader_step(&mut dir, &"a".to_string(), ReadEvent::Data(empty_frame)),
        ReadStep::Ignore
    ));
    assert_eq!(dir.len(), 1);
}
