use chat_backend::{decode, encode, ChatError, Payload, PayloadEventType};

fn connected(username: &str) -> Payload {
    Payload {
        event_type: PayloadEventType::Connected,
        username: username.to_string(),
        message: None,
    }
}

fn message(username: &str, text: &str) -> Payload {
    Payload {
        event_type: PayloadEventType::Message,
        username: username.to_string(),
        message: Some(text.to_string()),
    }
}

#[test]
fn encode_connected_exact() {
    assert_eq!(
        encode(&connected("user2")),
        "{\"event_type\":\"connected\",\"username\":\"user2\"}"
    );
}

#[test]
fn encode_disconnected_exact() {
    let p = Payload {
        event_type: PayloadEventType::Disconnected,
        username: "alice".to_string(),
        message: None,
    };
    assert_eq!(
        encode(&p),
        "{\"event_type\":\"disconnected\",\"username\":\"alice\"}"
    );
}

#[test]
fn encode_message_exact() {
    assert_eq!(
        encode(&message("alice", "hi")),
        "{\"event_type\":\"message\",\"username\":\"alice\",\"message\":\"hi\"}"
    );
}

#[test]
fn encode_escapes_quotes_and_backslashes() {
    let p = message("alice", "a \"quoted\" \\ backslash");
    assert_eq!(
        encode(&p),
        "{\"event_type\":\"message\",\"username\":\"alice\",\"message\":\"a \\\"quoted\\\" \\\\ backslash\"}"
    );
    assert_eq!(decode(&encode(&p)), Ok(p));
}

#[test]
fn decode_round_trips_every_kind() {
    for p in [
        connected("user1"),
        message("user1", "hello 1"),
        Payload {
            event_type: PayloadEventType::Disconnected,
            username: "user1".to_string(),
            message: None,
        },
    ] {
        let text = encode(&p);
        assert_eq!(decode(&text), Ok(p));
    }
}

#[test]
fn decode_message_exact() {
    let decoded =
        decode("{\"event_type\":\"message\",\"username\":\"user1\",\"message\":\"hello 1\"}");
    assert_eq!(decoded, Ok(message("user1", "hello 1")));
}

#[test]
fn decode_rejects_malformed_frames() {
    let bad = [
        "",
        "not json at all",
        "{}",
        "{\"event_type\":\"connected\"}",
        "{\"username\":\"u\"}",
        "{\"event_type\":\"waving\",\"username\":\"u\"}",
        "{\"event_type\":\"connected\",\"username\":\"\"}",
        "{\"event_type\":\"connected\",\"username\":\"u\"",
        "{\"event_type\":\"connected\",\"username\":\"u\",\"message\":\"hi\"}",
        "{\"event_type\":\"message\",\"username\":\"u\"}",
        "{\"event_type\":\"message\",\"username\":\"u\",\"message\":null}",
        "{\"event_type\":\"connected\",\"username\":\"u\\x\"}",
        "{\"event_type\":\"connected\",\"username\":\"u\\ud800x\"}",
        "{\"event_type\":\"connected\",\"event_type\":\"connected\",\"username\":\"u\"}",
        "{\"event_type\":\"connected\",\"username\":\"u\",}",
        "{\"event_type\":\"connected\",\"username\":\"u\"}x",
        "{\"event_type\":\"connected\",\"username\":null}",
        "{\"event_type\":\"connected\",\"username\":\"line\nbreak\"}",
    ];
    for text in bad {
        assert_eq!(decode(text), Err(ChatError::MalformedPayload), "{text}");
    }
}

#[test]
fn decode_accepts_any_field_order_and_whitespace() {
    let reordered = "{\"username\":\"alice\",\"event_type\":\"connected\"}";
    assert_eq!(decode(reordered), Ok(connected("alice")));

    let spaced = " {\n\t\"event_type\" : \"message\" ,\r\n \"message\" : \"hi\" , \"username\" : \"alice\" }  ";
    assert_eq!(decode(spaced), Ok(message("alice", "hi")));
}

#[test]
fn decode_ignores_unknown_fields() {
    let extras = "{\"seq\":42,\"event_type\":\"connected\",\"tags\":[\"a\",{\"b\":1}],\
                  \"meta\":{\"n\":null,\"deep\":[true,-1.5e3]},\"username\":\"alice\",\"note\":\"x\"}";
    assert_eq!(decode(extras), Ok(connected("alice")));
}

#[test]
fn decode_accepts_null_message_on_non_message_events() {
    let text = "{\"event_type\":\"connected\",\"username\":\"alice\",\"message\":null}";
    assert_eq!(decode(text), Ok(connected("alice")));
}

#[test]
fn decode_accepts_standard_string_escapes() {
    let text = "{\"event_type\":\"message\",\"username\":\"a\\u0041b\",\"message\":\"l1\\nl2\\t\\u004a\\/\"}";
    assert_eq!(decode(text), Ok(message("aAb", "l1\nl2\tJ/")));
}

#[test]
fn encode_escapes_control_characters() {
    let p = message("alice", "l1\nl2\t\u{8}\u{c}\r\u{1}end");
    assert_eq!(
        encode(&p),
        "{\"event_type\":\"message\",\"username\":\"alice\",\"message\":\"l1\\nl2\\t\\b\\f\\r\\u0001end\"}"
    );
    assert_eq!(decode(&encode(&p)), Ok(p.clone()));
    // the escaping matches what a serde-based peer produces for the same text
    let serde_escaped = serde_json::to_string("l1\nl2\t\u{8}\u{c}\r\u{1}end").unwrap();
    assert!(encode(&p).ends_with(&format!(",\"message\":{}}}", serde_escaped)));
}

#[test]
fn encoded_frames_are_plain_json() {
    let v: serde_json::Value = serde_json::from_str(&encode(&message("bob", "hi there"))).unwrap();
    assert_eq!(v.get("event_type").unwrap().as_str(), Some("message"));
    assert_eq!(v.get("username").unwrap().as_str(), Some("bob"));
    assert_eq!(v.get("message").unwrap().as_str(), Some("hi there"));

    let v: serde_json::Value = serde_json::from_str(&encode(&connected("bob"))).unwrap();
    assert_eq!(v.get("event_type").unwrap().as_str(), Some("connected"));
    assert_eq!(v.get("message"), None);
}
