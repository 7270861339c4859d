//! The history log as seen through the read-only query surface.

use chat_backend::{encode, Payload, PayloadEventType, ServerState};

fn connect_frame(username: &str) -> String {
    encode(&Payload {
        event_type: PayloadEventType::Connected,
        username: username.to_string(),
        message: None,
    })
}

fn message_frame(username: &str, text: &str) -> String {
    encode(&Payload {
        event_type: PayloadEventType::Message,
        username: username.to_string(),
        message: Some(text.to_string()),
    })
}

#[test]
fn empty_history_is_an_empty_array() {
    let state = ServerState::new();
    assert_eq!(state.history_json(), "[]");
}

#[test]
fn history_is_the_chronology_of_broadcasts() {
    let mut state = ServerState::new();
    state.handle_frame(1, &connect_frame("user1")).unwrap();
    state.handle_frame(2, &connect_frame("user2")).unwrap();
    state
        .handle_frame(1, &message_frame("user1", "hello 1"))
        .unwrap();
    state.handle_disconnect(2);

    let expected = format!(
        "[{},{},{},{}]",
        connect_frame("user1"),
        connect_frame("user2"),
        message_frame("user1", "hello 1"),
        "{\"event_type\":\"disconnected\",\"username\":\"user2\"}"
    );
    assert_eq!(state.history_json(), expected);
}

#[test]
fn history_records_rejected_join_attempts_too() {
    let mut state = ServerState::new();
    state.handle_frame(1, &connect_frame("user1")).unwrap();
    let _ = state.handle_frame(2, &connect_frame("user1"));
    assert_eq!(
        state.history_json(),
        format!("[{},{}]", connect_frame("user1"), connect_frame("user1"))
    );
}

#[test]
fn history_json_parses_as_a_json_array() {
    let mut state = ServerState::new();
    state.handle_frame(1, &connect_frame("user1")).unwrap();
    state
        .handle_frame(1, &message_frame("user1", "hi"))
        .unwrap();
    let v: serde_json::Value = serde_json::from_str(&state.history_json()).unwrap();
    let items = v.as_array().unwrap();
    assert_eq!(items.len(), 2);
    assert_eq!(
        items[0].get("event_type").unwrap().as_str(),
        Some("connected")
    );
    assert_eq!(items[1].get("message").unwrap().as_str(), Some("hi"));
}
