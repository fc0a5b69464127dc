use ws_relay::broadcast::{broadcast, post_user_message, Message, MessageKind};
use ws_relay::directory::Directory;

#[test]
fn broadcast_reaches_every_peer_once() {
    let mut dir = Directory::new();
    dir.join(&"a".to_string(), 1, &"Guest".to_string());
    dir.join(&"b".to_string(), 2, &"Guest".to_string());
    dir.join(&"c".to_string(), 3, &"Guest".to_string());
    let msg = Message { kind: MessageKind::ServerMessage, text: "welcome".to_string() };
    let deliveries = broadcast(&dir, &msg);
    assert_eq!(deliveries.len(), 3);
    let mut tos: Vec<&str> = deliveries.iter().map(|d| d.to.as_str()).collect();
    tos.sort();
    assert_eq!(tos, vec!["a", "b", "c"]);
    for d in &deliveries {
        assert_eq!(d.text, "welcome");
    }
}

#[test]
fn broadcast_to_empty_directory_is_empty() {
    let dir = Directory::new();
    let msg = Message { kind: MessageKind::UserMessage, text: "x".to_string() };
    assert!(broadcast(&dir, &msg).is_empty());
}

#[test]
fn post_user_message_prefixes_display_name() {
    let mut dir = Directory::new();
    dir.join(&"a".to_string(), 1, &"Ann".to_string());
    let msg = post_user_message(&dir, &"a".to_string(), "hi there").expect("peer is present");
    assert_eq!(msg.text, "Ann: hi there");
    assert!(post_user_message(&dir, &"ghost".to_string(), "hi").is_none());
}
