//! The laws of the relay, proved once and for all over the state
//! transitions: what a run of connects does, what a duplicate username can
//! and cannot change, who receives a chat line or a departure notice, and
//! that the history is exactly the chronology of broadcasts.

use vstd::prelude::*;

use crate::codec::{lemma_decode_encode, spec_decode, spec_encode};
use crate::payload::ChatError;
use crate::state::{
    broadcast_t, connected_payload, deliver_one, disconnect_t, disconnected_payload, register_t,
    remove_t, step_frame_t, ClientV, StateV,
};

verus! {

/// The wire frame announcing that `u` joined.
pub open spec fn connect_frame(u: Seq<char>) -> Seq<char> {
    spec_encode(connected_payload(u))
}

/// The state after a run of connect frames, one per joining client,
/// applied oldest first.
pub open spec fn connect_seq_t(s: StateV, evs: Seq<(u64, Seq<char>)>) -> StateV
    decreases evs.len(),
{
    if evs.len() == 0 {
        s
    } else {
        connect_seq_t(step_frame_t(s, evs[0].0, connect_frame(evs[0].1)).0, evs.skip(1))
    }
}

/// One successful connect step: a fresh address and a fresh, non-empty
/// username join; everyone already present is notified once, the newcomer
/// hears nothing of its own join, and the join is logged.
pub proof fn lemma_connect_step(s: StateV, a: u64, u: Seq<char>)
    requires
        s.wf(),
        u.len() > 0,
        !s.has_addr(a),
        !s.has_username(u),
    ensures
        step_frame_t(s, a, connect_frame(u)).1 is None,
        step_frame_t(s, a, connect_frame(u)).0.wf(),
        step_frame_t(s, a, connect_frame(u)).0.clients.len() == s.clients.len() + 1,
        forall|i: int|
            0 <= i < s.clients.len() ==> (#[trigger] step_frame_t(
                s,
                a,
                connect_frame(u),
            ).0.clients[i]) == (ClientV {
                outbox: s.clients[i].outbox.push(connect_frame(u)),
                ..s.clients[i]
            }),
        step_frame_t(s, a, connect_frame(u)).0.clients[s.clients.len() as int] == (ClientV {
            address: a,
            username: u,
            outbox: Seq::<Seq<char>>::empty(),
        }),
        step_frame_t(s, a, connect_frame(u)).0.history == s.history.push(connected_payload(u)),
{
    lemma_decode_encode(connected_payload(u));
    let r = register_t(s, a, u);
    let s1 = r.0;
    assert(s1.clients == s.clients.push(ClientV {
        address: a,
        username: u,
        outbox: Seq::<Seq<char>>::empty(),
    }));
    let t = broadcast_t(s1, connect_frame(u), Some(a));
    assert(step_frame_t(s, a, connect_frame(u)).0 == t);
    assert forall|i: int| 0 <= i < s.clients.len() implies (#[trigger] t.clients[i]) == ClientV {
        outbox: s.clients[i].outbox.push(connect_frame(u)),
        ..s.clients[i]
    } by {
        assert(s1.clients[i] == s.clients[i]);
        if s.clients[i].address == a {
            assert(s.has_addr(a));
        }
        assert(t.clients[i] == deliver_one(s.clients[i], connect_frame(u), Some(a)));
        assert(t.clients[i] =~= ClientV {
            outbox: s.clients[i].outbox.push(connect_frame(u)),
            ..s.clients[i]
        });
    }
    let n = s.clients.len() as int;
    assert(t.clients[n] == deliver_one(s1.clients[n], connect_frame(u), Some(a)));
    assert(t.clients[n] == s1.clients[n]);
    assert forall|i: int, j: int|
        #![trigger t.clients[i].address, t.clients[j].address]
        0 <= i < j < t.clients.len() implies t.clients[i].address != t.clients[j].address by {
        assert(t.clients[i].address == s1.clients[i].address);
        assert(t.clients[j].address == s1.clients[j].address);
        if j == n {
            if s.clients[i].address == a {
                assert(s.has_addr(a));
            }
        }
    }
    assert forall|i: int, j: int|
        #![trigger t.clients[i].username, t.clients[j].username]
        0 <= i < j < t.clients.len() implies t.clients[i].username != t.clients[j].username by {
        assert(t.clients[i].username == s1.clients[i].username);
        assert(t.clients[j].username == s1.clients[j].username);
        if j == n {
            if s.clients[i].username == u {
                assert(s.has_username(u));
            }
        }
    }
    assert forall|i: int| 0 <= i < t.clients.len() implies (#[trigger] t.clients[i].username).len()
        > 0 by {
        assert(t.clients[i].username == s1.clients[i].username);
    }
}

/// For every run of successful connects with pairwise-distinct fresh
/// usernames and addresses, the registry grows by exactly the number of
/// connects, every client present before the run receives exactly one
/// `connected` notification per join, in join order, and every newcomer
/// receives exactly the notifications of the joins after its own.
pub proof fn law_connect_sequence(s: StateV, evs: Seq<(u64, Seq<char>)>)
    requires
        s.wf(),
        forall|k: int| 0 <= k < evs.len() ==> (#[trigger] evs[k].1).len() > 0,
        forall|k: int, l: int|
            #![trigger evs[k], evs[l]]
            0 <= k < l < evs.len() ==> evs[k].0 != evs[l].0 && evs[k].1 != evs[l].1,
        forall|k: int|
            0 <= k < evs.len() ==> !s.has_addr(#[trigger] evs[k].0) && !s.has_username(evs[k].1),
    ensures
        connect_seq_t(s, evs).wf(),
        connect_seq_t(s, evs).clients.len() == s.clients.len() + evs.len(),
        forall|i: int|
            0 <= i < s.clients.len() ==> (#[trigger] connect_seq_t(s, evs).clients[i]) == (ClientV {
                outbox: s.clients[i].outbox + evs.map_values(
                    |e: (u64, Seq<char>)| connect_frame(e.1),
                ),
                ..s.clients[i]
            }),
        forall|k: int|
            0 <= k < evs.len() ==> (#[trigger] connect_seq_t(s, evs).clients[s.clients.len() + k])
                == (ClientV {
                address: evs[k].0,
                username: evs[k].1,
                outbox: evs.skip(k + 1).map_values(|e: (u64, Seq<char>)| connect_frame(e.1)),
            }),
        connect_seq_t(s, evs).history == s.history + evs.map_values(
            |e: (u64, Seq<char>)| connected_payload(e.1),
        ),
    decreases evs.len(),
{
    let f = |e: (u64, Seq<char>)| connect_frame(e.1);
    let g = |e: (u64, Seq<char>)| connected_payload(e.1);
    let t = connect_seq_t(s, evs);
    if evs.len() == 0 {
        assert(t == s);
        assert(evs.map_values(f) =~= Seq::<Seq<char>>::empty());
        assert(s.history + evs.map_values(g) =~= s.history);
        assert forall|i: int| 0 <= i < s.clients.len() implies (#[trigger] t.clients[i]) == ClientV {
            outbox: s.clients[i].outbox + evs.map_values(f),
            ..s.clients[i]
        } by {
            assert(s.clients[i].outbox + evs.map_values(f) =~= s.clients[i].outbox);
            assert(t.clients[i] =~= ClientV {
                outbox: s.clients[i].outbox + evs.map_values(f),
                ..s.clients[i]
            });
        }
    } else {
        let a = evs[0].0;
        let u = evs[0].1;
        let msg = connect_frame(u);
        lemma_connect_step(s, a, u);
        let s2 = step_frame_t(s, a, msg).0;
        let rest = evs.skip(1);
        assert(rest.len() == evs.len() - 1);
        assert(forall|k: int| 0 <= k < rest.len() ==> #[trigger] rest[k] == evs[k + 1]);
        let n = s.clients.len() as int;
        assert(s2.clients.len() == n + 1);
        assert forall|k: int| 0 <= k < rest.len() implies !s2.has_addr(#[trigger] rest[k].0)
            && !s2.has_username(rest[k].1) by {
            assert(rest[k] == evs[k + 1]);
            if s2.has_addr(rest[k].0) {
                let w = choose|w: int|
                    0 <= w < s2.clients.len() && (#[trigger] s2.clients[w].address) == rest[k].0;
                if w < n {
                    assert(s2.clients[w].address == s.clients[w].address);
                    assert(s.has_addr(rest[k].0));
                } else {
                    assert(s2.clients[w].address == a);
                    assert(evs[0].0 != evs[k + 1].0);
                }
                assert(false);
            }
            if s2.has_username(rest[k].1) {
                let w = choose|w: int|
                    0 <= w < s2.clients.len() && (#[trigger] s2.clients[w].username) == rest[k].1;
                if w < n {
                    assert(s2.clients[w].username == s.clients[w].username);
                    assert(s.has_username(rest[k].1));
                } else {
                    assert(s2.clients[w].username == u);
                    assert(evs[0].1 != evs[k + 1].1);
                }
                assert(false);
            }
        }
        law_connect_sequence(s2, rest);
        assert(t == connect_seq_t(s2, rest));
        // the one frame of this step followed by the rest is the whole run
        assert(evs.map_values(f) =~= seq![msg] + rest.map_values(f));
        assert(evs.map_values(g) =~= seq![connected_payload(u)] + rest.map_values(g));
        assert(s2.history == s.history.push(connected_payload(u)));
        assert(t.history == s2.history + rest.map_values(g));
        assert(s.history.push(connected_payload(u)) + rest.map_values(g) =~= s.history
            + evs.map_values(g));
        assert forall|i: int| 0 <= i < s.clients.len() implies (#[trigger] t.clients[i]) == ClientV {
            outbox: s.clients[i].outbox + evs.map_values(f),
            ..s.clients[i]
        } by {
            assert(s2.clients[i] == ClientV {
                outbox: s.clients[i].outbox.push(msg),
                ..s.clients[i]
            });
            assert(t.clients[i] == ClientV {
                outbox: s2.clients[i].outbox + rest.map_values(f),
                ..s2.clients[i]
            });
            assert(s.clients[i].outbox.push(msg) + rest.map_values(f) =~= s.clients[i].outbox
                + evs.map_values(f));
        }
        assert forall|k: int| 0 <= k < evs.len() implies (#[trigger] t.clients[s.clients.len() + k])
            == ClientV {
            address: evs[k].0,
            username: evs[k].1,
            outbox: evs.skip(k + 1).map_values(f),
        } by {
            if k == 0 {
                assert(s2.clients[n] == ClientV {
                    address: a,
                    username: u,
                    outbox: Seq::<Seq<char>>::empty(),
                });
                assert(t.clients[n] == ClientV {
                    outbox: s2.clients[n].outbox + rest.map_values(f),
                    ..s2.clients[n]
                });
                assert(Seq::<Seq<char>>::empty() + rest.map_values(f) =~= rest.map_values(f));
                assert(evs.skip(1).map_values(f) == rest.map_values(f));
            } else {
                assert(t.clients[s2.clients.len() + (k - 1)] == ClientV {
                    address: rest[k - 1].0,
                    username: rest[k - 1].1,
                    outbox: rest.skip(k).map_values(f),
                });
                assert(s2.clients.len() + (k - 1) == s.clients.len() + k);
                assert(rest[k - 1] == evs[k]);
                assert(rest.skip(k) =~= evs.skip(k + 1));
            }
        }
    }
}

/// A connect under a username an active client already holds is rejected:
/// the registry keeps its size and members, the join attempt is still
/// announced to the room and logged, and the rejected address is not
/// registered — so no later broadcast can ever reach it.
pub proof fn law_duplicate_username_rejected(s: StateV, a: u64, u: Seq<char>)
    requires
        s.wf(),
        u.len() > 0,
        !s.has_addr(a),
        s.has_username(u),
    ensures
        step_frame_t(s, a, connect_frame(u)).1 == Some(ChatError::UsernameTaken),
        step_frame_t(s, a, connect_frame(u)).0.clients.len() == s.clients.len(),
        forall|i: int|
            0 <= i < s.clients.len() ==> (#[trigger] step_frame_t(
                s,
                a,
                connect_frame(u),
            ).0.clients[i]).address == s.clients[i].address && step_frame_t(
                s,
                a,
                connect_frame(u),
            ).0.clients[i].username == s.clients[i].username,
        !step_frame_t(s, a, connect_frame(u)).0.has_addr(a),
        step_frame_t(s, a, connect_frame(u)).0.history == s.history.push(connected_payload(u)),
{
    lemma_decode_encode(connected_payload(u));
    let t = step_frame_t(s, a, connect_frame(u)).0;
    assert(register_t(s, a, u) == (s, false));
    assert(t == broadcast_t(s, connect_frame(u), Some(a)));
    assert(forall|i: int|
        0 <= i < s.clients.len() ==> #[trigger] t.clients[i] == deliver_one(
            s.clients[i],
            connect_frame(u),
            Some(a),
        ));
    if t.has_addr(a) {
        let w = choose|w: int|
            0 <= w < t.clients.len() && (#[trigger] t.clients[w].address) == a;
        assert(t.clients[w].address == s.clients[w].address);
        assert(s.has_addr(a));
        assert(false);
    }
}

/// A broadcast queues frames only for registry entries and registers
/// nobody: an address outside the registry stays outside, so a connection
/// that was never registered can never be delivered to.
pub proof fn law_broadcast_reaches_only_registered(
    s: StateV,
    msg: Seq<char>,
    exclude: Option<u64>,
    a: u64,
)
    requires
        !s.has_addr(a),
    ensures
        !broadcast_t(s, msg, exclude).has_addr(a),
        broadcast_t(s, msg, exclude).clients.len() == s.clients.len(),
{
    let t = broadcast_t(s, msg, exclude);
    if t.has_addr(a) {
        let w = choose|w: int|
            0 <= w < t.clients.len() && (#[trigger] t.clients[w].address) == a;
        assert(t.clients[w] == deliver_one(s.clients[w], msg, exclude));
        assert(s.clients[w].address == a);
        assert(s.has_addr(a));
        assert(false);
    }
}

/// A `message` frame from a registered client is queued once for every
/// other registered client, never for the sender itself, and the event is
/// logged; nobody joins or leaves on its account.
pub proof fn law_message_delivery(s: StateV, a: u64, msg: Seq<char>)
    requires
        s.wf(),
        s.has_addr(a),
        spec_decode(msg) is Some,
        spec_decode(msg)->Some_0.event_type is Message,
    ensures
        step_frame_t(s, a, msg).1 is None,
        step_frame_t(s, a, msg).0.clients.len() == s.clients.len(),
        forall|i: int|
            0 <= i < s.clients.len() && s.clients[i].address != a ==> (#[trigger] step_frame_t(
                s,
                a,
                msg,
            ).0.clients[i]) == (ClientV { outbox: s.clients[i].outbox.push(msg), ..s.clients[i] }),
        forall|i: int|
            0 <= i < s.clients.len() && s.clients[i].address == a ==> (#[trigger] step_frame_t(
                s,
                a,
                msg,
            ).0.clients[i]) == s.clients[i],
        step_frame_t(s, a, msg).0.history == s.history.push(spec_decode(msg)->Some_0),
{
    let t = step_frame_t(s, a, msg).0;
    assert(t == broadcast_t(s, msg, Some(a)));
    assert forall|i: int| 0 <= i < s.clients.len() && s.clients[i].address != a implies (
    #[trigger] t.clients[i]) == ClientV {
        outbox: s.clients[i].outbox.push(msg),
        ..s.clients[i]
    } by {
        assert(t.clients[i] == deliver_one(s.clients[i], msg, Some(a)));
        assert(t.clients[i] =~= ClientV { outbox: s.clients[i].outbox.push(msg), ..s.clients[i] });
    }
}

/// On disconnect of a registered client, its entry is gone, every
/// remaining client is notified exactly once of its departure, and the
/// departure is logged under its username.
pub proof fn law_disconnect_notification(s: StateV, a: u64)
    requires
        s.wf(),
        s.has_addr(a),
    ensures
        !disconnect_t(s, a).has_addr(a),
        disconnect_t(s, a).clients.len() == s.clients.len() - 1,
        forall|i: int|
            0 <= i < disconnect_t(s, a).clients.len() ==> (#[trigger] disconnect_t(
                s,
                a,
            ).clients[i]) == (ClientV {
                outbox: s.clients.remove(s.index_of(a))[i].outbox.push(
                    spec_encode(disconnected_payload(s.username_of(a))),
                ),
                ..s.clients.remove(s.index_of(a))[i]
            }),
        disconnect_t(s, a).history == s.history.push(disconnected_payload(s.username_of(a))),
{
    let idx = s.index_of(a);
    assert(0 <= idx < s.clients.len() && s.clients[idx].address == a);
    assert(s.clients[idx].username.len() > 0);
    lemma_decode_encode(disconnected_payload(s.username_of(a)));
    let msg = spec_encode(disconnected_payload(s.username_of(a)));
    let s1 = remove_t(s, a).0;
    let t = disconnect_t(s, a);
    assert(t == broadcast_t(s1, msg, None));
    assert forall|i: int| 0 <= i < t.clients.len() implies (#[trigger] t.clients[i]) == ClientV {
        outbox: s.clients.remove(idx)[i].outbox.push(msg),
        ..s.clients.remove(idx)[i]
    } by {
        assert(t.clients[i] == deliver_one(s1.clients[i], msg, None));
        assert(t.clients[i] =~= ClientV {
            outbox: s.clients.remove(idx)[i].outbox.push(msg),
            ..s.clients.remove(idx)[i]
        });
    }
    if t.has_addr(a) {
        let w = choose|w: int|
            0 <= w < t.clients.len() && (#[trigger] t.clients[w].address) == a;
        let w0: int = if w < idx {
            w
        } else {
            w + 1
        };
        assert(t.clients[w].address == s.clients.remove(idx)[w].address);
        assert(s.clients.remove(idx)[w] == s.clients[w0]);
        assert(s.clients[w0].address == a == s.clients[idx].address);
        if w0 < idx {
            assert(s.clients[w0].address != s.clients[idx].address);
        } else {
            assert(s.clients[idx].address != s.clients[w0].address);
        }
        assert(false);
    }
}

/// The history is append-only, and one inbound frame appends exactly the
/// event it broadcast — the decoded frame — or nothing when the frame was
/// rejected as malformed.
pub proof fn law_history_step_frame(s: StateV, a: u64, msg: Seq<char>)
    ensures
        spec_decode(msg) is Some ==> step_frame_t(s, a, msg).0.history == s.history.push(
            spec_decode(msg)->Some_0,
        ),
        spec_decode(msg) is None ==> step_frame_t(s, a, msg).0.history == s.history,
        s.history.is_prefix_of(step_frame_t(s, a, msg).0.history),
{
    let t = step_frame_t(s, a, msg).0;
    if spec_decode(msg) is Some {
        assert(t.history == s.history.push(spec_decode(msg)->Some_0));
        assert(t.history.take(s.history.len() as int) =~= s.history);
    } else {
        assert(t.history.take(s.history.len() as int) =~= s.history);
    }
}

/// The history is append-only across a disconnect, and records exactly the
/// departure event of the client that was removed — or nothing when none
/// was registered.
pub proof fn law_history_disconnect(s: StateV, a: u64)
    requires
        s.wf(),
    ensures
        s.has_addr(a) ==> disconnect_t(s, a).history == s.history.push(
            disconnected_payload(s.username_of(a)),
        ),
        !s.has_addr(a) ==> disconnect_t(s, a).history == s.history,
        s.history.is_prefix_of(disconnect_t(s, a).history),
{
    let t = disconnect_t(s, a);
    if s.has_addr(a) {
        let idx = s.index_of(a);
        assert(0 <= idx < s.clients.len() && s.clients[idx].address == a);
        lemma_decode_encode(disconnected_payload(s.username_of(a)));
        assert(t.history == s.history.push(disconnected_payload(s.username_of(a))));
        assert(t.history.take(s.history.len() as int) =~= s.history);
    } else {
        assert(t.history.take(s.history.len() as int) =~= s.history);
    }
}

} // verus!
