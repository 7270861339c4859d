//! The shared server state: the client registry, the per-client outbound
//! queues, the history log, the broadcast engine and the per-connection
//! protocol steps.
//!
//! Every operation is stated against a transition function over the
//! mathematical state [`StateV`]: what an inbound frame does is
//! [`step_frame_t`], what a terminating connection does is
//! [`disconnect_t`]. A caller runs the transport and hands frames in;
//! it pulls each client's queued frames back out with
//! [`ServerState::take_outbox`] and performs the actual sends.

use vstd::prelude::*;
use vstd::string::StringExecFns;

use crate::codec::{
    decode, encode, lemma_decode_encode, spec_decode, spec_encode, spec_history_items,
    spec_history_json,
};
use crate::payload::{ChatError, Payload, PayloadEventType, PayloadView};

verus! {

/// Mathematical value of one registered connection.
#[verifier::ext_equal]
pub ghost struct ClientV {
    pub address: u64,
    pub username: Seq<char>,
    pub outbox: Seq<Seq<char>>,
}

/// Mathematical value of the whole server state.
#[verifier::ext_equal]
pub ghost struct StateV {
    pub clients: Seq<ClientV>,
    pub history: Seq<PayloadView>,
}

/// One registered connection: its transport identity, the username chosen
/// at connect time, and the queue of wire frames waiting to be pulled out
/// to its transport.
#[derive(Debug)]
pub struct ChatClient {
    pub address: u64,
    pub username: String,
    pub outbox: Vec<String>,
}

impl View for ChatClient {
    type V = ClientV;

    open spec fn view(&self) -> ClientV {
        ClientV {
            address: self.address,
            username: self.username@,
            outbox: self.outbox.deep_view(),
        }
    }
}

/// Process-wide state shared by every connection and by the read-only
/// history query: the client registry and the append-only event log.
#[derive(Debug)]
pub struct ServerState {
    pub clients: Vec<ChatClient>,
    pub history: Vec<Payload>,
}

impl View for ServerState {
    type V = StateV;

    open spec fn view(&self) -> StateV {
        StateV {
            clients: self.clients@.map_values(|c: ChatClient| c@),
            history: self.history@.map_values(|p: Payload| p@),
        }
    }
}

impl StateV {
    /// Registry invariant: addresses are keys, usernames are unique among
    /// active clients, and no registered username is empty.
    pub open spec fn wf(self) -> bool {
        &&& forall|i: int, j: int|
            #![trigger self.clients[i].address, self.clients[j].address]
            0 <= i < j < self.clients.len() ==> self.clients[i].address != self.clients[j].address
        &&& forall|i: int, j: int|
            #![trigger self.clients[i].username, self.clients[j].username]
            0 <= i < j < self.clients.len() ==> self.clients[i].username
                != self.clients[j].username
        &&& forall|i: int| 0 <= i < self.clients.len() ==> (#[trigger] self.clients[i].username).len() > 0
    }

    pub open spec fn has_addr(self, a: u64) -> bool {
        exists|i: int| 0 <= i < self.clients.len() && (#[trigger] self.clients[i].address) == a
    }

    pub open spec fn has_username(self, u: Seq<char>) -> bool {
        exists|i: int| 0 <= i < self.clients.len() && (#[trigger] self.clients[i].username) == u
    }

    /// The registry position of the client of `a`; meaningful only when
    /// `has_addr(a)`.
    pub open spec fn index_of(self, a: u64) -> int {
        choose|i: int| 0 <= i < self.clients.len() && (#[trigger] self.clients[i].address) == a
    }

    pub open spec fn username_of(self, a: u64) -> Seq<char> {
        self.clients[self.index_of(a)].username
    }

    pub open spec fn outbox_of(self, a: u64) -> Seq<Seq<char>> {
        self.clients[self.index_of(a)].outbox
    }
}

/// The state with no clients and no history, as at process start.
pub open spec fn empty_state() -> StateV {
    StateV { clients: Seq::empty(), history: Seq::empty() }
}

/// The payload announcing a join.
pub open spec fn connected_payload(u: Seq<char>) -> PayloadView {
    PayloadView { event_type: PayloadEventType::Connected, username: u, message: None }
}

/// The payload announcing a departure.
pub open spec fn disconnected_payload(u: Seq<char>) -> PayloadView {
    PayloadView { event_type: PayloadEventType::Disconnected, username: u, message: None }
}

/// One delivery: the frame is queued for the client unless it is the
/// excluded sender.
pub open spec fn deliver_one(c: ClientV, msg: Seq<char>, exclude: Option<u64>) -> ClientV {
    if exclude == Some(c.address) {
        c
    } else {
        ClientV { outbox: c.outbox.push(msg), ..c }
    }
}

/// The broadcast engine: queue the frame for every client but the excluded
/// sender, and append the decoded event to the history — one atomic unit.
pub open spec fn broadcast_t(s: StateV, msg: Seq<char>, exclude: Option<u64>) -> StateV
    recommends
        spec_decode(msg) is Some,
{
    StateV {
        clients: Seq::new(s.clients.len(), |i: int| deliver_one(s.clients[i], msg, exclude)),
        history: s.history.push(spec_decode(msg)->Some_0),
    }
}

/// Registration: a no-op success for an address already present, a
/// rejection for a username an active client holds, a fresh entry with an
/// empty queue otherwise.
pub open spec fn register_t(s: StateV, a: u64, u: Seq<char>) -> (StateV, bool) {
    if s.has_addr(a) {
        (s, true)
    } else if s.has_username(u) {
        (s, false)
    } else {
        (
            StateV {
                clients: s.clients.push(ClientV { address: a, username: u, outbox: Seq::empty() }),
                ..s
            },
            true,
        )
    }
}

/// Removal: drops and yields the entry of the address, if any.
pub open spec fn remove_t(s: StateV, a: u64) -> (StateV, Option<ClientV>) {
    if s.has_addr(a) {
        (
            StateV { clients: s.clients.remove(s.index_of(a)), ..s },
            Some(s.clients[s.index_of(a)]),
        )
    } else {
        (s, None)
    }
}

/// What one inbound text frame from the connection of `a` does: a frame
/// that does not decode is rejected untouched; a `connected` frame from an
/// unknown address attempts registration first; in every decodable case
/// the frame is then broadcast with the sender excluded. The error, if
/// any, tells the connection to terminate.
pub open spec fn step_frame_t(s: StateV, a: u64, msg: Seq<char>) -> (StateV, Option<ChatError>) {
    match spec_decode(msg) {
        None => (s, Some(ChatError::MalformedPayload)),
        Some(pv) => {
            if pv.event_type is Connected && !s.has_addr(a) {
                let r = register_t(s, a, pv.username);
                (
                    broadcast_t(r.0, msg, Some(a)),
                    if r.1 {
                        None
                    } else {
                        Some(ChatError::UsernameTaken)
                    },
                )
            } else {
                (broadcast_t(s, msg, Some(a)), None)
            }
        },
    }
}

/// Cleanup when a connection terminates: its entry is removed, and if one
/// was present, a `disconnected` event carrying its username is broadcast
/// to everyone remaining and logged.
pub open spec fn disconnect_t(s: StateV, a: u64) -> StateV {
    if s.has_addr(a) {
        broadcast_t(remove_t(s, a).0, spec_encode(disconnected_payload(s.username_of(a))), None)
    } else {
        s
    }
}

impl ServerState {
    /// An empty registry and an empty history, as at process start.
    pub fn new() -> (s: ServerState)
        ensures
            s@ == empty_state(),
            s@.wf(),
    {
        let s = ServerState { clients: Vec::new(), history: Vec::new() };
        proof {
            assert(s@ =~= empty_state());
        }
        s
    }

    /// The registry position of the client of `address`, if registered.
    fn find_addr(&self, address: u64) -> (r: Option<usize>)
        ensures
            match r {
                Some(i) => i < self@.clients.len() && self@.clients[i as int].address == address
                    && self@.has_addr(address) && (self@.wf() ==> self@.index_of(address) == i),
                None => !self@.has_addr(address),
            },
            self@.wf() ==> r is Some == self@.has_addr(address),
    {
        let n = self.clients.len();
        let mut i: usize = 0;
        while i < n
            invariant
                n == self.clients@.len(),
                i <= n,
                forall|q: int| 0 <= q < i ==> (#[trigger] self.clients@[q]@.address) != address,
            decreases n - i,
        {
            if self.clients[i].address == address {
                proof {
                    assert(self@.clients[i as int] == self.clients@[i as int]@);
                    assert(self@.clients[i as int].address == address);
                    assert(self@.has_addr(address));
                    let k = self@.index_of(address);
                    assert(self@.clients[k].address == address);
                    if self@.wf() && k != i {
                        if k < i {
                            assert(self@.clients[k] == self.clients@[k]@);
                            assert(self@.clients[k].address != self@.clients[i as int].address);
                        } else {
                            assert(self@.clients[i as int].address != self@.clients[k].address);
                        }
                        assert(false);
                    }
                }
                return Some(i);
            }
            i = i + 1;
        }
        proof {
            assert forall|q: int| 0 <= q < self@.clients.len() implies (#[trigger] self@.clients[q].address)
                != address by {
                assert(self@.clients[q] == self.clients@[q]@);
            }
        }
        None
    }

    /// Whether some active client holds this username.
    fn holds_username(&self, username: &String) -> (b: bool)
        ensures
            b == self@.has_username(username@),
    {
        let n = self.clients.len();
        let mut i: usize = 0;
        while i < n
            invariant
                n == self.clients@.len(),
                i <= n,
                forall|q: int| 0 <= q < i ==> (#[trigger] self.clients@[q]@.username) != username@,
            decreases n - i,
        {
            if self.clients[i].username == *username {
                proof {
                    assert(self@.clients[i as int] == self.clients@[i as int]@);
                    assert(self@.clients[i as int].username == username@);
                }
                return true;
            }
            i = i + 1;
        }
        proof {
            assert forall|q: int| 0 <= q < self@.clients.len() implies (#[trigger] self@.clients[q].username)
                != username@ by {
                assert(self@.clients[q] == self.clients@[q]@);
            }
        }
        false
    }

    /// Registers a connection under `username`. A no-op success if the
    /// address is already present; rejected if another active client
    /// holds the username; otherwise the client joins with an empty queue.
    pub fn register(&mut self, address: u64, username: &String) -> (r: Result<(), ChatError>)
        requires
            old(self)@.wf(),
            username@.len() > 0,
        ensures
            final(self)@.wf(),
            final(self)@ == register_t(old(self)@, address, username@).0,
            r is Ok <==> register_t(old(self)@, address, username@).1,
            r matches Err(e) ==> e == ChatError::UsernameTaken,
            r is Err <==> !old(self)@.has_addr(address) && old(self)@.has_username(username@),
    {
        if self.find_addr(address).is_some() {
            return Ok(());
        }
        if self.holds_username(username) {
            return Err(ChatError::UsernameTaken);
        }
        let fresh = ChatClient { address, username: username.clone(), outbox: Vec::new() };
        proof {
            assert(fresh@ =~= ClientV {
                address,
                username: username@,
                outbox: Seq::<Seq<char>>::empty(),
            });
        }
        self.clients.push(fresh);
        proof {
            assert(self@.clients =~= old(self)@.clients.push(ClientV {
                address,
                username: username@,
                outbox: Seq::<Seq<char>>::empty(),
            }));
            assert(self@ =~= register_t(old(self)@, address, username@).0);
        }
        Ok(())
    }

    /// Removes and returns the entry of `address`, if present.
    pub fn remove(&mut self, address: u64) -> (r: Option<ChatClient>)
        requires
            old(self)@.wf(),
        ensures
            final(self)@.wf(),
            final(self)@ == remove_t(old(self)@, address).0,
            match r {
                Some(c) => remove_t(old(self)@, address).1 == Some(c@) && old(self)@.has_addr(
                    address,
                ),
                None => remove_t(old(self)@, address).1 is None && !old(self)@.has_addr(address),
            },
    {
        match self.find_addr(address) {
            None => None,
            Some(i) => {
                let c = self.clients.remove(i);
                proof {
                    assert(self@.clients =~= old(self)@.clients.remove(i as int));
                    assert(self@ =~= remove_t(old(self)@, address).0);
                    assert forall|p: int, q: int| 0 <= p < q < self@.clients.len() implies self@.clients[p].address
                        != self@.clients[q].address && self@.clients[p].username
                        != self@.clients[q].username by {
                        let p0: int = if p < i { p } else { p + 1 };
                        let q0: int = if q < i { q } else { q + 1 };
                        assert(self@.clients[p] == old(self)@.clients[p0]);
                        assert(self@.clients[q] == old(self)@.clients[q0]);
                    }
                    assert forall|p: int| 0 <= p < self@.clients.len() implies (
                    #[trigger] self@.clients[p].username).len() > 0 by {
                        let p0: int = if p < i { p } else { p + 1 };
                        assert(self@.clients[p] == old(self)@.clients[p0]);
                    }
                }
                Some(c)
            },
        }
    }

    /// The broadcast engine: queues the frame for every registered client
    /// but the excluded sender, then appends the decoded event to the
    /// history — one atomic unit under the caller's exclusive access.
    pub fn broadcast(&mut self, msg: &str, exclude: Option<u64>)
        requires
            old(self)@.wf(),
            spec_decode(msg@) is Some,
        ensures
            final(self)@.wf(),
            final(self)@ == broadcast_t(old(self)@, msg@, exclude),
    {
        let ghost orig = self.clients@;
        let n = self.clients.len();
        let mut i: usize = 0;
        while i < n
            invariant
                n == self.clients@.len(),
                i <= n,
                self.history@ == old(self).history@,
                forall|q: int| i <= q < n ==> self.clients@[q] == orig[q],
                forall|q: int|
                    0 <= q < i ==> (#[trigger] self.clients@[q]@) == deliver_one(
                        orig[q]@,
                        msg@,
                        exclude,
                    ),
            decreases n - i,
        {
            let deliver = match exclude {
                Some(a) => self.clients[i].address != a,
                None => true,
            };
            if deliver {
                let text = msg.to_owned();
                self.clients[i].outbox.push(text);
                proof {
                    assert(self.clients@[i as int]@.outbox =~= orig[i as int]@.outbox.push(msg@));
                    assert(self.clients@[i as int]@ =~= deliver_one(orig[i as int]@, msg@, exclude));
                }
            } else {
                proof {
                    assert(self.clients@[i as int]@ == deliver_one(orig[i as int]@, msg@, exclude));
                }
            }
            i = i + 1;
        }
        let decoded = decode(msg);
        match decoded {
            Ok(p) => {
                self.history.push(p);
                proof {
                    assert(self@.clients =~= broadcast_t(old(self)@, msg@, exclude).clients);
                    assert(self@.history =~= broadcast_t(old(self)@, msg@, exclude).history);
                    assert(self@ =~= broadcast_t(old(self)@, msg@, exclude));
                }
            },
            Err(_) => {
                proof {
                    assert(false);
                }
            },
        }
    }

    /// Drives the per-connection state machine for one inbound text frame:
    /// decode, register on a first `connected` frame, then broadcast the
    /// frame verbatim with the sender excluded. An error tells the caller
    /// to terminate the connection.
    pub fn handle_frame(&mut self, address: u64, msg: &str) -> (r: Result<(), ChatError>)
        requires
            old(self)@.wf(),
        ensures
            final(self)@.wf(),
            final(self)@ == step_frame_t(old(self)@, address, msg@).0,
            match r {
                Ok(()) => step_frame_t(old(self)@, address, msg@).1 is None,
                Err(e) => step_frame_t(old(self)@, address, msg@).1 == Some(e),
            },
    {
        let decoded = decode(msg);
        match decoded {
            Err(_) => Err(ChatError::MalformedPayload),
            Ok(p) => {
                let mut outcome: Result<(), ChatError> = Ok(());
                let fresh_connect = p.event_type == PayloadEventType::Connected
                    && self.find_addr(address).is_none();
                if fresh_connect {
                    match self.register(address, &p.username) {
                        Ok(()) => {},
                        Err(e) => {
                            outcome = Err(e);
                        },
                    }
                }
                self.broadcast(msg, Some(address));
                outcome
            },
        }
    }

    /// Cleanup when the connection of `address` terminates: remove its
    /// entry, and if one was present, broadcast a `disconnected` event
    /// carrying its username to everyone remaining.
    pub fn handle_disconnect(&mut self, address: u64)
        requires
            old(self)@.wf(),
        ensures
            final(self)@.wf(),
            final(self)@ == disconnect_t(old(self)@, address),
    {
        let removed = self.remove(address);
        match removed {
            None => {},
            Some(c) => {
                let payload = Payload {
                    event_type: PayloadEventType::Disconnected,
                    username: c.username,
                    message: None,
                };
                proof {
                    assert(payload@ =~= disconnected_payload(old(self)@.username_of(address)));
                    lemma_decode_encode(payload@);
                }
                let text = encode(&payload);
                self.broadcast(text.as_str(), None);
            },
        }
    }

    /// A snapshot of the addresses a broadcast would deliver to: every
    /// registered client except the excluded sender, in registry order.
    pub fn broadcast_targets(&self, exclude: Option<u64>) -> (r: Vec<u64>)
        ensures
            r@ == targets_of(self@.clients, exclude),
    {
        let mut r: Vec<u64> = Vec::new();
        let n = self.clients.len();
        let mut i: usize = 0;
        while i < n
            invariant
                n == self.clients@.len(),
                i <= n,
                r@ == targets_of(self@.clients.take(i as int), exclude),
            decreases n - i,
        {
            let a = self.clients[i].address;
            let deliver = match exclude {
                Some(x) => a != x,
                None => true,
            };
            if deliver {
                r.push(a);
            }
            proof {
                let cs = self@.clients;
                assert(cs[i as int] == self.clients@[i as int]@);
                assert(cs.take(i as int + 1).drop_last() =~= cs.take(i as int));
                assert(cs.take(i as int + 1).last() == cs[i as int]);
                assert(r@ =~= targets_of(cs.take(i as int + 1), exclude));
            }
            i = i + 1;
        }
        proof {
            assert(self@.clients.take(n as int) =~= self@.clients);
        }
        r
    }

    /// Writes the whole history as a JSON array, oldest event first, for
    /// the read-only history query.
    pub fn history_json(&self) -> (r: String)
        ensures
            r@ == spec_history_json(self@.history),
    {
        let mut out = String::new();
        out.append("[");
        proof {
            assert(out@ =~= "["@ + spec_history_items(self@.history.take(0)));
        }
        let n = self.history.len();
        let mut i: usize = 0;
        while i < n
            invariant
                n == self.history@.len(),
                i <= n,
                out@ == "["@ + spec_history_items(self@.history.take(i as int)),
            decreases n - i,
        {
            if i > 0 {
                out.append(",");
            }
            let e = encode(&self.history[i]);
            out.append(e.as_str());
            proof {
                let h = self@.history;
                assert(h.take(i as int + 1).drop_last() =~= h.take(i as int));
                assert(h.take(i as int + 1).last() == h[i as int]);
                assert(h[i as int] == self.history@[i as int]@);
                if i == 0 {
                    assert(out@ =~= "["@ + spec_history_items(h.take(1)));
                } else {
                    assert(out@ =~= "["@ + spec_history_items(h.take(i as int + 1)));
                }
            }
            i = i + 1;
        }
        out.append("]");
        proof {
            assert(self@.history.take(n as int) =~= self@.history);
            assert(out@ =~= spec_history_json(self@.history));
        }
        out
    }

    /// How many clients are currently registered.
    pub fn client_count(&self) -> (n: usize)
        ensures
            n == self@.clients.len(),
    {
        self.clients.len()
    }

    /// Hands out and empties the outbound queue of the client of
    /// `address`: exactly the frames broadcast to it and not yet pulled,
    /// oldest first. The caller forwards them to the transport.
    pub fn take_outbox(&mut self, address: u64) -> (r: Vec<String>)
        requires
            old(self)@.wf(),
        ensures
            final(self)@.wf(),
            final(self)@ == clear_outbox_t(old(self)@, address),
            old(self)@.has_addr(address) ==> r.deep_view() == old(self)@.outbox_of(address),
            !old(self)@.has_addr(address) ==> r.deep_view() == Seq::<Seq<char>>::empty(),
    {
        match self.find_addr(address) {
            None => {
                let r: Vec<String> = Vec::new();
                proof {
                    assert(r.deep_view() =~= Seq::<Seq<char>>::empty());
                }
                r
            },
            Some(i) => {
                let mut taken: Vec<String> = Vec::new();
                core::mem::swap(&mut taken, &mut self.clients[i].outbox);
                proof {
                    assert(taken.deep_view() =~= old(self)@.outbox_of(address));
                    assert(self.clients@[i as int]@ =~= ClientV {
                        outbox: Seq::<Seq<char>>::empty(),
                        ..old(self)@.clients[i as int]
                    });
                    assert(self@.clients =~= clear_outbox_t(old(self)@, address).clients);
                    assert(self@ =~= clear_outbox_t(old(self)@, address));
                    assert forall|p: int, q: int| 0 <= p < q < self@.clients.len() implies self@.clients[p].address
                        != self@.clients[q].address && self@.clients[p].username
                        != self@.clients[q].username by {
                        assert(self@.clients[p].address == old(self)@.clients[p].address);
                        assert(self@.clients[q].address == old(self)@.clients[q].address);
                        assert(self@.clients[p].username == old(self)@.clients[p].username);
                        assert(self@.clients[q].username == old(self)@.clients[q].username);
                    }
                }
                taken
            },
        }
    }
}

/// The addresses a broadcast with this exclusion reaches, in registry
/// order.
pub open spec fn targets_of(cs: Seq<ClientV>, exclude: Option<u64>) -> Seq<u64>
    decreases cs.len(),
{
    if cs.len() == 0 {
        Seq::<u64>::empty()
    } else if exclude == Some(cs.last().address) {
        targets_of(cs.drop_last(), exclude)
    } else {
        targets_of(cs.drop_last(), exclude) + seq![cs.last().address]
    }
}

/// The state after the client of `a`, if registered, had its outbound
/// queue emptied.
pub open spec fn clear_outbox_t(s: StateV, a: u64) -> StateV {
    if s.has_addr(a) {
        StateV {
            clients: s.clients.update(
                s.index_of(a),
                ClientV { outbox: Seq::empty(), ..s.clients[s.index_of(a)] },
            ),
            ..s
        }
    } else {
        s
    }
}

impl Default for ServerState {
    /// An empty registry and an empty history.
    fn default() -> (s: ServerState)
        ensures
            s@ == empty_state(),
            s@.wf(),
    {
        ServerState::new()
    }
}

} // verus!
