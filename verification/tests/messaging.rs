//! The connect, broadcast and disconnect scenarios, driven through the
//! per-connection state machine frame by frame.

use chat_backend::{encode, ChatError, Payload, PayloadEventType, ServerState};

const USER1: u64 = 1;
const USER2: u64 = 2;
const USER3: u64 = 3;

fn connect_frame(username: &str) -> String {
    encode(&Payload {
        event_type: PayloadEventType::Connected,
        username: username.to_string(),
        message: None,
    })
}

fn message_frame(username: &str, text: &str) -> String {
    encode(&Payload {
        event_type: PayloadEventType::Message,
        username: username.to_string(),
        message: Some(text.to_string()),
    })
}

#[test]
fn single_user_gets_notified_on_new_user_join() {
    let mut state = ServerState::new();
    state.handle_frame(USER1, &connect_frame("user1")).unwrap();
    state.handle_frame(USER2, &connect_frame("user2")).unwrap();

    assert_eq!(
        state.take_outbox(USER1),
        vec!["{\"event_type\":\"connected\",\"username\":\"user2\"}".to_string()]
    );
    // the joining client never hears of its own join
    assert_eq!(state.take_outbox(USER2), Vec::<String>::new());
}

#[test]
fn multiple_users_get_notified_on_third_user_join() {
    let mut state = ServerState::new();
    state.handle_frame(USER1, &connect_frame("user1")).unwrap();
    state.handle_frame(USER2, &connect_frame("user2")).unwrap();
    state.handle_frame(USER3, &connect_frame("user3")).unwrap();

    assert_eq!(
        state.take_outbox(USER1),
        vec![connect_frame("user2"), connect_frame("user3")]
    );
    assert_eq!(state.take_outbox(USER2), vec![connect_frame("user3")]);
    assert_eq!(state.take_outbox(USER3), Vec::<String>::new());
}

#[test]
fn bidirectional_messaging_between_two_users() {
    let mut state = ServerState::new();
    state.handle_frame(USER1, &connect_frame("user1")).unwrap();
    state.handle_frame(USER2, &connect_frame("user2")).unwrap();
    state
        .handle_frame(USER1, &message_frame("user1", "hello 1"))
        .unwrap();
    state
        .handle_frame(USER2, &message_frame("user2", "hello 2"))
        .unwrap();

    assert_eq!(
        state.take_outbox(USER2),
        vec![
            "{\"event_type\":\"message\",\"username\":\"user1\",\"message\":\"hello 1\"}"
                .to_string()
        ]
    );
    assert_eq!(
        state.take_outbox(USER1),
        vec![
            connect_frame("user2"),
            "{\"event_type\":\"message\",\"username\":\"user2\",\"message\":\"hello 2\"}"
                .to_string()
        ]
    );
}

#[test]
fn disallow_two_clients_with_same_username() {
    let mut state = ServerState::new();
    state.handle_frame(USER1, &connect_frame("user1")).unwrap();
    let second = state.handle_frame(USER2, &connect_frame("user1"));

    assert_eq!(second, Err(ChatError::UsernameTaken));
    assert_eq!(state.client_count(), 1);
    // the rejected address was never registered, so nothing is ever queued for it
    assert_eq!(state.take_outbox(USER2), Vec::<String>::new());
    // the rejected join attempt was still announced to the room
    assert_eq!(state.take_outbox(USER1), vec![connect_frame("user1")]);
}

#[test]
fn disconnect_notifies_remaining_users_once() {
    let mut state = ServerState::new();
    state.handle_frame(USER1, &connect_frame("user1")).unwrap();
    state.handle_frame(USER2, &connect_frame("user2")).unwrap();
    state.handle_frame(USER3, &connect_frame("user3")).unwrap();
    state.take_outbox(USER1);
    state.take_outbox(USER2);

    state.handle_disconnect(USER2);

    assert_eq!(state.client_count(), 2);
    assert_eq!(
        state.take_outbox(USER1),
        vec!["{\"event_type\":\"disconnected\",\"username\":\"user2\"}".to_string()]
    );
    assert_eq!(
        state.take_outbox(USER3),
        vec![
            "{\"event_type\":\"disconnected\",\"username\":\"user2\"}".to_string()
        ]
    );
    // removing an unknown address is a no-op
    state.handle_disconnect(USER2);
    assert_eq!(state.client_count(), 2);
}

#[test]
fn reconnect_event_from_registered_address_is_noop_success() {
    let mut state = ServerState::new();
    state.handle_frame(USER1, &connect_frame("user1")).unwrap();
    state.handle_frame(USER1, &connect_frame("user1")).unwrap();
    assert_eq!(state.client_count(), 1);
}

#[test]
fn malformed_frame_is_rejected_and_changes_nothing() {
    let mut state = ServerState::new();
    state.handle_frame(USER1, &connect_frame("user1")).unwrap();
    let r = state.handle_frame(USER1, "not a payload");
    assert_eq!(r, Err(ChatError::MalformedPayload));
    assert_eq!(state.client_count(), 1);
    assert_eq!(state.history_json(), format!("[{}]", connect_frame("user1")));
}

#[test]
fn frame_from_unregistered_sender_is_broadcast_to_the_room() {
    let mut state = ServerState::new();
    state.handle_frame(USER1, &connect_frame("user1")).unwrap();
    // a sender that never announced itself is not registered, but its
    // well-formed frames still reach the room
    state
        .handle_frame(USER2, &message_frame("ghost", "boo"))
        .unwrap();
    assert_eq!(state.client_count(), 1);
    assert_eq!(state.take_outbox(USER1), vec![message_frame("ghost", "boo")]);
}

#[test]
fn take_outbox_empties_the_queue() {
    let mut state = ServerState::new();
    state.handle_frame(USER1, &connect_frame("user1")).unwrap();
    state.handle_frame(USER2, &connect_frame("user2")).unwrap();
    assert_eq!(state.take_outbox(USER1).len(), 1);
    assert_eq!(state.take_outbox(USER1), Vec::<String>::new());
}
