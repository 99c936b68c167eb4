//! A small concrete chain runtime implementing the `ChainRuntime`
//! capability: a para chain that can ping another para chain over a
//! horizontal channel and is ponged back, keeping a counter of pings
//! still awaiting their pong.

use vstd::prelude::*;
use crate::channel::{ChainId, ChannelKind, EnvModel, MessageEnvelope};
use crate::event::{Event, EventModel, events_view};
use crate::runtime::{
    Call, CallModel, ChainRuntime, Origin, OutboundMessage, OutboundModel, RtStep, StepOutput,
    fail_output, outbound_view,
};

verus! {

/// The one call selector this runtime accepts: send a ping to the para
/// chain named by the call's argument.
pub const SEL_PING: u64 = 1;

/// Event variant tags.
pub const TAG_PING_SENT: u64 = 1;

pub const TAG_PINGED: u64 = 2;

pub const TAG_PONG_SENT: u64 = 3;

pub const TAG_PONGED: u64 = 4;

/// Rejection reasons.
pub const REASON_UNKNOWN_CALL: u64 = 1;

pub const REASON_BAD_ORIGIN: u64 = 2;

pub const REASON_BAD_DEST: u64 = 3;

pub const REASON_UNEXPECTED_ENVELOPE: u64 = 4;

pub const REASON_UNMATCHED_PONG: u64 = 5;

/// Wire payloads.
pub const PAYLOAD_PING: u8 = 10;

pub const PAYLOAD_PONG: u8 = 11;

/// A para chain runtime for the ping/pong protocol. `own` is its own
/// para id; `pending` lists, in send order, the para ids of pings not
/// yet answered by a pong.
pub struct PingRuntime {
    pub own: u32,
    pub pending: Vec<u32>,
}

/// The abstract state: the chain's own id followed by the pending ping
/// destinations, in send order.
pub open spec fn ping_state(own: u32, pending: Seq<u32>) -> Seq<u64> {
    seq![own as u64] + pending.map_values(|p: u32| p as u64)
}

pub open spec fn st_own(state: Seq<u64>) -> u64 {
    if state.len() >= 1 {
        state[0]
    } else {
        0
    }
}

pub open spec fn st_pending(state: Seq<u64>) -> Seq<u64> {
    state.skip(1)
}

/// First position of `v` in `s`, if any.
pub open spec fn spec_first_index(s: Seq<u64>, v: u64) -> Option<int>
    decreases s.len(),
{
    if s.len() == 0 {
        None
    } else if s[0] == v {
        Some(0)
    } else {
        match spec_first_index(s.skip(1), v) {
            Some(i) => Some(i + 1),
            None => None,
        }
    }
}

proof fn lemma_first_index_some(s: Seq<u64>, v: u64, i: int)
    requires
        0 <= i < s.len(),
        s[i] == v,
        forall|j: int| 0 <= j < i ==> s[j] != v,
    ensures
        spec_first_index(s, v) == Some(i),
    decreases s.len(),
{
    if i > 0 {
        assert forall|j: int| 0 <= j < i - 1 implies s.skip(1)[j] != v by {
            assert(s.skip(1)[j] == s[j + 1]);
        }
        assert(s.skip(1)[i - 1] == s[i]);
        lemma_first_index_some(s.skip(1), v, i - 1);
    }
}

proof fn lemma_first_index_none(s: Seq<u64>, v: u64)
    requires
        forall|j: int| 0 <= j < s.len() ==> s[j] != v,
    ensures
        spec_first_index(s, v) is None,
    decreases s.len(),
{
    if s.len() > 0 {
        assert forall|j: int| 0 <= j < s.skip(1).len() implies s.skip(1)[j] != v by {
            assert(s.skip(1)[j] == s[j + 1]);
        }
        lemma_first_index_none(s.skip(1), v);
    }
}

/// A model step that rejects with `reason`, leaving the state as it was.
pub open spec fn rt_fail(state: Seq<u64>, reason: u64) -> RtStep {
    RtStep { ok: false, reason, state, events: Seq::empty(), outbound: Seq::empty() }
}

/// Model of `PingRuntime::execute`: a root-originated ping call to
/// another (representable) para id appends that id to the pending list,
/// emits `PingSent` and requests one horizontal ping envelope; everything
/// else is rejected.
pub open spec fn ping_execute_model(
    state: Seq<u64>,
    call: CallModel,
    origin: Origin,
    round: u64,
) -> RtStep {
    if call.selector != SEL_PING {
        rt_fail(state, REASON_UNKNOWN_CALL)
    } else if origin != Origin::Root {
        rt_fail(state, REASON_BAD_ORIGIN)
    } else if call.arg > u32::MAX as u64 || call.arg == st_own(state) {
        rt_fail(state, REASON_BAD_DEST)
    } else {
        RtStep {
            ok: true,
            reason: 0,
            state: state.push(call.arg),
            events: seq![EventModel { tag: TAG_PING_SENT, attrs: seq![call.arg] }],
            outbound: seq![
                OutboundModel {
                    kind: ChannelKind::Horizontal,
                    recipient: ChainId::Para(call.arg as u32),
                    payload: seq![PAYLOAD_PING],
                },
            ],
        }
    }
}

/// Model of `PingRuntime::deliver_inbound`: a ping from a para chain is
/// answered (events `Pinged` then `PongSent`, one pong envelope back); a
/// pong from a para chain settles the earliest matching pending ping and
/// emits `Ponged`; a pong with no matching pending ping, any other
/// payload, and anything from the relay chain are refused.
pub open spec fn ping_deliver_model(state: Seq<u64>, env: EnvModel, round: u64) -> RtStep {
    match env.sender {
        ChainId::Para(s) => {
            if env.payload == seq![PAYLOAD_PING] {
                RtStep {
                    ok: true,
                    reason: 0,
                    state,
                    events: seq![
                        EventModel { tag: TAG_PINGED, attrs: seq![s as u64] },
                        EventModel { tag: TAG_PONG_SENT, attrs: seq![s as u64] },
                    ],
                    outbound: seq![
                        OutboundModel {
                            kind: ChannelKind::Horizontal,
                            recipient: ChainId::Para(s),
                            payload: seq![PAYLOAD_PONG],
                        },
                    ],
                }
            } else if env.payload == seq![PAYLOAD_PONG] {
                match spec_first_index(st_pending(state), s as u64) {
                    Some(i) => RtStep {
                        ok: true,
                        reason: 0,
                        state: state.remove(i + 1),
                        events: seq![EventModel { tag: TAG_PONGED, attrs: seq![s as u64] }],
                        outbound: Seq::empty(),
                    },
                    None => rt_fail(state, REASON_UNMATCHED_PONG),
                }
            } else {
                rt_fail(state, REASON_UNEXPECTED_ENVELOPE)
            }
        },
        ChainId::Relay => rt_fail(state, REASON_UNEXPECTED_ENVELOPE),
    }
}

impl PingRuntime {
    /// A fresh runtime for the para chain `own`, with no pending pings.
    pub fn new(own: u32) -> (r: PingRuntime)
        ensures
            r.state_model() == ping_state(own, Seq::empty()),
            r.own == own,
            r.pending@.len() == 0,
    {
        let r = PingRuntime { own, pending: Vec::new() };
        proof {
            assert(r.state_model() =~= ping_state(own, Seq::empty()));
        }
        r
    }

    /// How many pings are still awaiting their pong.
    pub fn pending_count(&self) -> (n: usize)
        ensures
            n == self.pending@.len(),
            n == st_pending(self.state_model()).len(),
    {
        proof {
            assert(st_pending(self.state_model()) =~= self.pending@.map_values(|p: u32| p as u64));
        }
        self.pending.len()
    }
}

impl ChainRuntime for PingRuntime {
    open spec fn state_model(&self) -> Seq<u64> {
        ping_state(self.own, self.pending@)
    }

    open spec fn start_model(state: Seq<u64>, round: u64) -> Seq<u64> {
        state
    }

    open spec fn execute_model(state: Seq<u64>, call: CallModel, origin: Origin, round: u64) -> RtStep {
        ping_execute_model(state, call, origin, round)
    }

    open spec fn deliver_model(state: Seq<u64>, env: EnvModel, round: u64) -> RtStep {
        ping_deliver_model(state, env, round)
    }

    proof fn lemma_execute_atomic(state: Seq<u64>, call: CallModel, origin: Origin, round: u64) {
    }

    proof fn lemma_deliver_atomic(state: Seq<u64>, env: EnvModel, round: u64) {
    }

    fn on_round_start(&mut self, round: u64) {
    }

    fn execute(&mut self, call: &Call, origin: Origin, round: u64) -> (out: StepOutput) {
        let ghost state0 = self.state_model();
        let ghost m = Self::execute_model(state0, call@, origin, round);
        if call.selector != SEL_PING {
            return fail_output(REASON_UNKNOWN_CALL);
        }
        let is_root = match origin {
            Origin::Root => true,
            Origin::Signed(_) => false,
        };
        if !is_root {
            return fail_output(REASON_BAD_ORIGIN);
        }
        proof {
            assert(st_own(state0) == self.own as u64);
        }
        if call.arg > u32::MAX as u64 || call.arg == self.own as u64 {
            return fail_output(REASON_BAD_DEST);
        }
        let dest: u32 = call.arg as u32;
        self.pending.push(dest);
        let mut events: Vec<Event> = Vec::new();
        let mut attrs: Vec<u64> = Vec::new();
        attrs.push(call.arg);
        events.push(Event { tag: TAG_PING_SENT, attrs });
        let mut outbound: Vec<OutboundMessage> = Vec::new();
        let mut payload: Vec<u8> = Vec::new();
        payload.push(PAYLOAD_PING);
        outbound.push(OutboundMessage {
            kind: ChannelKind::Horizontal,
            recipient: ChainId::Para(dest),
            payload,
        });
        let out = StepOutput { result: Ok(()), events, outbound };
        proof {
            assert(self.state_model() =~= m.state);
            assert(events_view(out.events@) =~~= m.events);
            assert(outbound_view(out.outbound@) =~~= m.outbound);
        }
        out
    }

    fn deliver_inbound(&mut self, env: &MessageEnvelope, round: u64) -> (out: StepOutput) {
        let ghost state0 = self.state_model();
        let ghost m = Self::deliver_model(state0, env@, round);
        let s: u32 = match env.sender {
            ChainId::Para(s) => s,
            ChainId::Relay => {
                return fail_output(REASON_UNEXPECTED_ENVELOPE);
            },
        };
        let is_ping = env.payload.len() == 1 && env.payload[0] == PAYLOAD_PING;
        let is_pong = env.payload.len() == 1 && env.payload[0] == PAYLOAD_PONG;
        proof {
            if is_ping {
                assert(env.payload@ =~= seq![PAYLOAD_PING]);
            } else {
                assert(env.payload@ != seq![PAYLOAD_PING]) by {
                    if env.payload@ == seq![PAYLOAD_PING] {
                        assert(env.payload@.len() == 1);
                        assert(env.payload@[0] == PAYLOAD_PING);
                    }
                }
            }
            if is_pong {
                assert(env.payload@ =~= seq![PAYLOAD_PONG]);
            } else {
                assert(env.payload@ != seq![PAYLOAD_PONG]) by {
                    if env.payload@ == seq![PAYLOAD_PONG] {
                        assert(env.payload@.len() == 1);
                        assert(env.payload@[0] == PAYLOAD_PONG);
                    }
                }
            }
        }
        if is_ping {
            let mut events: Vec<Event> = Vec::new();
            let mut attrs1: Vec<u64> = Vec::new();
            attrs1.push(s as u64);
            events.push(Event { tag: TAG_PINGED, attrs: attrs1 });
            let mut attrs2: Vec<u64> = Vec::new();
            attrs2.push(s as u64);
            events.push(Event { tag: TAG_PONG_SENT, attrs: attrs2 });
            let mut outbound: Vec<OutboundMessage> = Vec::new();
            let mut payload: Vec<u8> = Vec::new();
            payload.push(PAYLOAD_PONG);
            outbound.push(OutboundMessage {
                kind: ChannelKind::Horizontal,
                recipient: ChainId::Para(s),
                payload,
            });
            let out = StepOutput { result: Ok(()), events, outbound };
            proof {
                assert(events_view(out.events@) =~~= m.events);
                assert(outbound_view(out.outbound@) =~~= m.outbound);
            }
            return out;
        }
        if !is_pong {
            return fail_output(REASON_UNEXPECTED_ENVELOPE);
        }
        proof {
            assert(st_pending(state0) =~= self.pending@.map_values(|p: u32| p as u64));
        }
        let mut i: usize = 0;
        let mut found = false;
        while i < self.pending.len() && !found
            invariant
                i <= self.pending@.len(),
                found ==> i < self.pending@.len() && self.pending@[i as int] == s,
                forall|j: int| 0 <= j < i ==> self.pending@[j] != s,
            decreases self.pending@.len() - i, (if found { 0int } else { 1int }),
        {
            if self.pending[i] == s {
                found = true;
            } else {
                i = i + 1;
            }
        }
        if !found {
            proof {
                assert forall|j: int| 0 <= j < st_pending(state0).len() implies st_pending(state0)[j]
                    != s as u64 by {
                    assert(st_pending(state0)[j] == self.pending@[j] as u64);
                }
                lemma_first_index_none(st_pending(state0), s as u64);
            }
            return fail_output(REASON_UNMATCHED_PONG);
        }
        proof {
            assert forall|j: int| 0 <= j < i implies st_pending(state0)[j] != s as u64 by {
                assert(st_pending(state0)[j] == self.pending@[j] as u64);
            }
            assert(st_pending(state0)[i as int] == s as u64);
            lemma_first_index_some(st_pending(state0), s as u64, i as int);
        }
        let _ = self.pending.remove(i);
        let mut events: Vec<Event> = Vec::new();
        let mut attrs: Vec<u64> = Vec::new();
        attrs.push(s as u64);
        events.push(Event { tag: TAG_PONGED, attrs });
        let out = StepOutput { result: Ok(()), events, outbound: Vec::new() };
        proof {
            assert(self.state_model() =~= m.state);
            assert(events_view(out.events@) =~~= m.events);
            assert(outbound_view(out.outbound@) =~~= Seq::<OutboundModel>::empty());
        }
        out
    }
}

} // verus!
