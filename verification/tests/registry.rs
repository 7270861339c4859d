//! The client registry operations, called directly.

use chat_backend::{ChatError, ServerState};

#[test]
fn register_fresh_usernames_grows_the_registry() {
    let mut state = ServerState::new();
    assert_eq!(state.register(1, &"user1".to_string()), Ok(()));
    assert_eq!(state.register(2, &"user2".to_string()), Ok(()));
    assert_eq!(state.client_count(), 2);
}

#[test]
fn register_is_idempotent_per_address() {
    let mut state = ServerState::new();
    assert_eq!(state.register(1, &"user1".to_string()), Ok(()));
    assert_eq!(state.register(1, &"user1".to_string()), Ok(()));
    assert_eq!(state.client_count(), 1);
}

#[test]
fn register_rejects_a_username_already_held() {
    let mut state = ServerState::new();
    assert_eq!(state.register(1, &"user1".to_string()), Ok(()));
    assert_eq!(
        state.register(2, &"user1".to_string()),
        Err(ChatError::UsernameTaken)
    );
    assert_eq!(state.client_count(), 1);
}

#[test]
fn broadcast_targets_exclude_the_sender() {
    let mut state = ServerState::new();
    state.register(1, &"user1".to_string()).unwrap();
    state.register(2, &"user2".to_string()).unwrap();
    state.register(3, &"user3".to_string()).unwrap();
    assert_eq!(state.broadcast_targets(Some(2)), vec![1, 3]);
    assert_eq!(state.broadcast_targets(None), vec![1, 2, 3]);
    assert_eq!(state.broadcast_targets(Some(9)), vec![1, 2, 3]);
}

#[test]
fn remove_returns_the_entry_once() {
    let mut state = ServerState::new();
    state.register(7, &"user1".to_string()).unwrap();
    let removed = state.remove(7).unwrap();
    assert_eq!(removed.address, 7);
    assert_eq!(removed.username, "user1");
    assert!(removed.outbox.is_empty());
    assert!(state.remove(7).is_none());
    assert_eq!(state.client_count(), 0);
}
