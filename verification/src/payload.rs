//! The wire-level event unit exchanged between chat clients, and the
//! errors the core can report.

use vstd::prelude::*;

verus! {

/// The closed set of event kinds a payload can carry: a join, a departure,
/// or a chat line.
#[derive(Clone, Copy, Debug, PartialEq, Eq, Structural)]
pub enum PayloadEventType {
    Connected,
    Disconnected,
    Message,
}

/// Mathematical value of a [`Payload`]: the event kind together with the
/// character sequences of its text fields.
#[verifier::ext_equal]
pub ghost struct PayloadView {
    pub event_type: PayloadEventType,
    pub username: Seq<char>,
    pub message: Option<Seq<char>>,
}

impl PayloadView {
    /// A payload is well formed when its username is non-empty and the
    /// `message` field is present exactly for `Message` events.
    pub open spec fn wf(self) -> bool {
        &&& self.username.len() > 0
        &&& (self.message is Some <==> self.event_type is Message)
    }
}

/// Message payload that is passed around on the wire as a JSON text frame.
#[derive(Debug, PartialEq, Eq, Clone)]
pub struct Payload {
    pub event_type: PayloadEventType,
    pub username: String,

    /// Present if and only if `event_type` is `Message`.
    pub message: Option<String>,
}

impl View for Payload {
    type V = PayloadView;

    open spec fn view(&self) -> PayloadView {
        PayloadView {
            event_type: self.event_type,
            username: self.username@,
            message: match self.message {
                Some(m) => Some(m@),
                None => None,
            },
        }
    }
}

impl Payload {
    /// Well-formedness of the executable payload, stated over its view.
    pub open spec fn wf(self) -> bool {
        self@.wf()
    }
}

/// The failures the core distinguishes: an inbound text frame that does not
/// decode into the wire shape, and a registration attempt with a username
/// that an active connection already holds.
#[derive(Clone, Copy, Debug, PartialEq, Eq, Structural)]
pub enum ChatError {
    MalformedPayload,
    UsernameTaken,
}

} // verus!
