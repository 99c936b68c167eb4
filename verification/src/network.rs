//! The network: one relay chain node and a set of secondary (para)
//! chain nodes, every message channel between them, and the round-based
//! scheduler that interleaves call execution and message delivery.
//!
//! Every round is pinned, by contract, to a model-level function of the
//! previous network model and the submitted call alone; determinism of
//! whole scenarios follows.

use vstd::prelude::*;
use crate::channel::{
    ChainId, ChannelError, ChannelKind, ChannelModel, EnvModel, MessageChannel, channel_wf,
    envs_view, lemma_drain_wf, lemma_enqueue_wf, spec_drain, spec_enqueue,
};
use crate::event::{
    AssertionFailure, EntryModel, Event, EventLogEntry, EventModel, EventPattern, check_events,
    copy_entries, entries_view, events_view, patterns_view, spec_assertion_holds, spec_match_count,
};
use crate::runtime::{
    Call, CallError, CallModel, ChainRuntime, Origin, OutboundMessage, OutboundModel, StepOutput,
    outbound_view,
};

verus! {

/// A routing-phase failure: either a channel refused an envelope (or no
/// channel was declared for the route — malformed topology), or a
/// recipient runtime refused a delivery.
#[derive(Clone, Copy, PartialEq, Eq, Debug)]
pub enum RoutingError {
    Channel { sender: ChainId, recipient: ChainId, kind: ChannelKind, error: ChannelError },
    Delivery { chain: ChainId, reason: u64 },
}

/// What one scheduler round reported: the result of the round's
/// triggering call (if one was submitted), and the first routing failure
/// (if routing halted).
#[derive(Clone, Copy, PartialEq, Eq, Debug)]
pub struct RoundReport {
    pub call_result: Option<Result<(), CallError>>,
    pub routing: Option<RoutingError>,
}

/// A call submission: the chain to execute on, the authority, and the
/// call itself.
pub struct Submission {
    pub target: ChainId,
    pub origin: Origin,
    pub call: Call,
}

/// Mathematical model of a submission.
#[verifier::ext_equal]
pub ghost struct SubmissionModel {
    pub target: ChainId,
    pub origin: Origin,
    pub call: CallModel,
}

impl View for Submission {
    type V = SubmissionModel;

    open spec fn view(&self) -> SubmissionModel {
        SubmissionModel { target: self.target, origin: self.origin, call: self.call@ }
    }
}

pub open spec fn submission_view(s: Option<Submission>) -> Option<SubmissionModel> {
    match s {
        Some(sub) => Some(sub@),
        None => None,
    }
}

/// One chain node: its runtime, its append-only event log, and the
/// cursor up to which the log has been checkpointed.
pub struct ChainNode<R> {
    pub id: ChainId,
    pub runtime: R,
    pub log: Vec<EventLogEntry>,
    pub cursor: usize,
}

/// Mathematical model of a node.
#[verifier::ext_equal]
pub ghost struct NodeModel {
    pub id: ChainId,
    pub state: Seq<u64>,
    pub log: Seq<EntryModel>,
    pub cursor: int,
}

impl<R: ChainRuntime> View for ChainNode<R> {
    type V = NodeModel;

    open spec fn view(&self) -> NodeModel {
        NodeModel {
            id: self.id,
            state: self.runtime.state_model(),
            log: entries_view(self.log@),
            cursor: self.cursor as int,
        }
    }
}

pub open spec fn nodes_view<R: ChainRuntime>(s: Seq<ChainNode<R>>) -> Seq<NodeModel> {
    s.map_values(|n: ChainNode<R>| n@)
}

pub open spec fn channels_view(s: Seq<MessageChannel>) -> Seq<ChannelModel> {
    s.map_values(|c: MessageChannel| c@)
}

/// The network: the sole owner of every node and every channel.
/// `nodes[0]` is the relay chain.
pub struct Network<R> {
    pub nodes: Vec<ChainNode<R>>,
    pub channels: Vec<MessageChannel>,
    pub round: u64,
}

/// Mathematical model of a network.
#[verifier::ext_equal]
pub ghost struct NetModel {
    pub nodes: Seq<NodeModel>,
    pub channels: Seq<ChannelModel>,
    pub round: u64,
}

impl<R: ChainRuntime> View for Network<R> {
    type V = NetModel;

    open spec fn view(&self) -> NetModel {
        NetModel {
            nodes: nodes_view(self.nodes@),
            channels: channels_view(self.channels@),
            round: self.round,
        }
    }
}

/// The channel kind agrees with its endpoints.
pub open spec fn channel_kind_ok(c: ChannelModel) -> bool {
    match c.kind {
        ChannelKind::Downward => c.sender == ChainId::Relay && c.recipient matches ChainId::Para(_),
        ChannelKind::Upward => (c.sender matches ChainId::Para(_)) && c.recipient == ChainId::Relay,
        ChannelKind::Horizontal => (c.sender matches ChainId::Para(_)) && (
        c.recipient matches ChainId::Para(_)),
    }
}

pub open spec fn same_route(a: ChannelModel, b: ChannelModel) -> bool {
    a.sender == b.sender && a.recipient == b.recipient && a.kind == b.kind
}

/// Well-formedness of a network model: one relay node first, secondary
/// nodes with unique para ids after it; cursors within their logs; every
/// log entry stamped with its own chain and an already-elapsed round;
/// every channel well-formed, typed consistently with its endpoints and
/// unique for its route; and no queued envelope from a round that has
/// not happened yet.
pub open spec fn net_wf(m: NetModel) -> bool {
    &&& m.nodes.len() >= 1
    &&& m.nodes[0].id == ChainId::Relay
    &&& forall|i: int|
        1 <= i < m.nodes.len() ==> ((#[trigger] m.nodes[i]).id matches ChainId::Para(_))
    &&& forall|i: int, j: int| 0 <= i < j < m.nodes.len() ==> m.nodes[i].id != m.nodes[j].id
    &&& forall|i: int|
        0 <= i < m.nodes.len() ==> 0 <= (#[trigger] m.nodes[i]).cursor <= m.nodes[i].log.len()
    &&& forall|i: int, j: int|
        0 <= i < m.nodes.len() && 0 <= j < m.nodes[i].log.len() ==> (#[trigger] m.nodes[i].log[j]).chain
            == m.nodes[i].id && m.nodes[i].log[j].round <= m.round
    &&& forall|ci: int| 0 <= ci < m.channels.len() ==> channel_wf(#[trigger] m.channels[ci])
    &&& forall|ci: int| 0 <= ci < m.channels.len() ==> channel_kind_ok(#[trigger] m.channels[ci])
    &&& forall|ci: int, cj: int|
        0 <= ci < cj < m.channels.len() ==> !same_route(m.channels[ci], m.channels[cj])
    &&& forall|ci: int, j: int|
        0 <= ci < m.channels.len() && 0 <= j < m.channels[ci].queue.len() ==> (
        #[trigger] m.channels[ci].queue[j]).round <= m.round
}

/// First node with the given id, if any.
pub open spec fn spec_find_node(nodes: Seq<NodeModel>, id: ChainId) -> Option<int>
    decreases nodes.len(),
{
    if nodes.len() == 0 {
        None
    } else if nodes[0].id == id {
        Some(0)
    } else {
        match spec_find_node(nodes.skip(1), id) {
            Some(i) => Some(i + 1),
            None => None,
        }
    }
}

proof fn lemma_find_node_some(nodes: Seq<NodeModel>, id: ChainId, i: int)
    requires
        0 <= i < nodes.len(),
        nodes[i].id == id,
        forall|j: int| 0 <= j < i ==> nodes[j].id != id,
    ensures
        spec_find_node(nodes, id) == Some(i),
    decreases nodes.len(),
{
    if i > 0 {
        assert forall|j: int| 0 <= j < i - 1 implies nodes.skip(1)[j].id != id by {
            assert(nodes.skip(1)[j] == nodes[j + 1]);
        }
        assert(nodes.skip(1)[i - 1] == nodes[i]);
        lemma_find_node_some(nodes.skip(1), id, i - 1);
    }
}

proof fn lemma_find_node_none(nodes: Seq<NodeModel>, id: ChainId)
    requires
        forall|j: int| 0 <= j < nodes.len() ==> nodes[j].id != id,
    ensures
        spec_find_node(nodes, id) is None,
    decreases nodes.len(),
{
    if nodes.len() > 0 {
        assert forall|j: int| 0 <= j < nodes.skip(1).len() implies nodes.skip(1)[j].id != id by {
            assert(nodes.skip(1)[j] == nodes[j + 1]);
        }
        lemma_find_node_none(nodes.skip(1), id);
    }
}

/// First channel with the given route, if any.
pub open spec fn spec_find_channel(
    chs: Seq<ChannelModel>,
    sender: ChainId,
    recipient: ChainId,
    kind: ChannelKind,
) -> Option<int>
    decreases chs.len(),
{
    if chs.len() == 0 {
        None
    } else if chs[0].sender == sender && chs[0].recipient == recipient && chs[0].kind == kind {
        Some(0)
    } else {
        match spec_find_channel(chs.skip(1), sender, recipient, kind) {
            Some(i) => Some(i + 1),
            None => None,
        }
    }
}

proof fn lemma_find_channel_some(
    chs: Seq<ChannelModel>,
    sender: ChainId,
    recipient: ChainId,
    kind: ChannelKind,
    i: int,
)
    requires
        0 <= i < chs.len(),
        chs[i].sender == sender && chs[i].recipient == recipient && chs[i].kind == kind,
        forall|j: int|
            0 <= j < i ==> !((#[trigger] chs[j]).sender == sender && chs[j].recipient == recipient
                && chs[j].kind == kind),
    ensures
        spec_find_channel(chs, sender, recipient, kind) == Some(i),
    decreases chs.len(),
{
    if i > 0 {
        assert forall|j: int| 0 <= j < i - 1 implies !((#[trigger] chs.skip(1)[j]).sender == sender
            && chs.skip(1)[j].recipient == recipient && chs.skip(1)[j].kind == kind) by {
            assert(chs.skip(1)[j] == chs[j + 1]);
        }
        assert(chs.skip(1)[i - 1] == chs[i]);
        lemma_find_channel_some(chs.skip(1), sender, recipient, kind, i - 1);
    }
}

proof fn lemma_find_channel_none(
    chs: Seq<ChannelModel>,
    sender: ChainId,
    recipient: ChainId,
    kind: ChannelKind,
)
    requires
        forall|j: int|
            0 <= j < chs.len() ==> !((#[trigger] chs[j]).sender == sender && chs[j].recipient
                == recipient && chs[j].kind == kind),
    ensures
        spec_find_channel(chs, sender, recipient, kind) is None,
    decreases chs.len(),
{
    if chs.len() > 0 {
        assert forall|j: int| 0 <= j < chs.skip(1).len() implies !((#[trigger] chs.skip(
            1,
        )[j]).sender == sender && chs.skip(1)[j].recipient == recipient && chs.skip(1)[j].kind
            == kind) by {
            assert(chs.skip(1)[j] == chs[j + 1]);
        }
        lemma_find_channel_none(chs.skip(1), sender, recipient, kind);
    }
}

fn find_node<R: ChainRuntime>(nodes: &Vec<ChainNode<R>>, id: ChainId) -> (r: Option<usize>)
    ensures
        ({
            let s = spec_find_node(nodes_view(nodes@), id);
            &&& (r matches Some(i) ==> i < nodes@.len() && s == Some(i as int) && nodes@[
                i as int
            ].id == id)
            &&& (r is None ==> s is None)
        }),
{
    let mut i: usize = 0;
    while i < nodes.len()
        invariant
            i <= nodes@.len(),
            forall|j: int| 0 <= j < i ==> (#[trigger] nodes@[j]).id != id,
        decreases nodes@.len() - i,
    {
        if nodes[i].id == id {
            proof {
                assert forall|j: int| 0 <= j < i implies nodes_view(nodes@)[j].id != id by {
                    assert(nodes_view(nodes@)[j] == nodes@[j]@);
                }
                lemma_find_node_some(nodes_view(nodes@), id, i as int);
            }
            return Some(i);
        }
        i = i + 1;
    }
    proof {
        assert forall|j: int| 0 <= j < nodes_view(nodes@).len() implies nodes_view(nodes@)[j].id
            != id by {
            assert(nodes_view(nodes@)[j] == nodes@[j]@);
        }
        lemma_find_node_none(nodes_view(nodes@), id);
    }
    None
}

fn find_channel(
    channels: &Vec<MessageChannel>,
    sender: ChainId,
    recipient: ChainId,
    kind: ChannelKind,
) -> (r: Option<usize>)
    ensures
        ({
            let s = spec_find_channel(channels_view(channels@), sender, recipient, kind);
            &&& (r matches Some(i) ==> i < channels@.len() && s == Some(i as int) && channels@[
                i as int
            ].sender == sender && channels@[i as int].recipient == recipient && channels@[
                i as int
            ].kind == kind)
            &&& (r is None ==> s is None)
        }),
{
    let mut i: usize = 0;
    while i < channels.len()
        invariant
            i <= channels@.len(),
            forall|j: int|
                0 <= j < i ==> !((#[trigger] channels@[j]).sender == sender && channels@[
                j].recipient == recipient && channels@[j].kind == kind),
        decreases channels@.len() - i,
    {
        let c = &channels[i];
        if c.sender == sender && c.recipient == recipient && c.kind == kind {
            proof {
                assert forall|j: int| 0 <= j < i implies !((#[trigger] channels_view(
                    channels@,
                )[j]).sender == sender && channels_view(channels@)[j].recipient == recipient
                    && channels_view(channels@)[j].kind == kind) by {
                    assert(channels_view(channels@)[j] == channels@[j]@);
                }
                lemma_find_channel_some(channels_view(channels@), sender, recipient, kind, i as int);
            }
            return Some(i);
        }
        i = i + 1;
    }
    proof {
        assert forall|j: int| 0 <= j < channels_view(channels@).len() implies !((
        #[trigger] channels_view(channels@)[j]).sender == sender && channels_view(
            channels@,
        )[j].recipient == recipient && channels_view(channels@)[j].kind == kind) by {
            assert(channels_view(channels@)[j] == channels@[j]@);
        }
        lemma_find_channel_none(channels_view(channels@), sender, recipient, kind);
    }
    None
}

/// Events as they are stamped into a chain's log: with the emitting
/// chain and the current round.
pub open spec fn stamp_events(evs: Seq<EventModel>, chain: ChainId, round: u64) -> Seq<EntryModel> {
    Seq::new(evs.len(), |i: int| EntryModel { chain, round, tag: evs[i].tag, attrs: evs[i].attrs })
}

/// Appends a step's events to a chain's log, stamped with the chain and
/// the round.
#[verifier::loop_isolation(false)]
fn append_events(log: &mut Vec<EventLogEntry>, chain: ChainId, round: u64, events: Vec<Event>)
    ensures
        entries_view(final(log)@) == entries_view(old(log)@) + stamp_events(
            events_view(events@),
            chain,
            round,
        ),
{
    let ghost log0 = entries_view(log@);
    let ghost ev0 = events_view(events@);
    let ghost stamped = stamp_events(ev0, chain, round);
    let mut events = events;
    while events.len() > 0
        invariant
            events@.len() <= ev0.len(),
            events_view(events@) =~= ev0.skip(ev0.len() - events@.len()),
            entries_view(log@) =~~= log0 + stamped.take(ev0.len() - events@.len()),
        decreases events@.len(),
    {
        let ghost k = ev0.len() - events@.len();
        let ghost vec_here = events@;
        let e = events.remove(0);
        proof {
            assert(vec_here[0]@ == ev0.skip(k)[0]);
            assert(e@ == ev0[k]);
            assert forall|i: int| 0 <= i < events@.len() implies events_view(events@)[i]
                == ev0.skip(k + 1)[i] by {
                assert(events@[i] == vec_here[i + 1]);
                assert(vec_here[i + 1]@ == ev0.skip(k)[i + 1]);
            }
            assert(events_view(events@) =~= ev0.skip(k + 1));
        }
        let entry = EventLogEntry { chain, round, tag: e.tag, attrs: e.attrs };
        proof {
            assert(entry@ =~~= stamped[k]);
        }
        let ghost lvec_here = log@;
        log.push(entry);
        proof {
            assert forall|i: int| 0 <= i < log@.len() implies entries_view(log@)[i] == (log0
                + stamped.take(k + 1))[i] by {
                if i < lvec_here.len() {
                    assert(log@[i] == lvec_here[i]);
                    assert(entries_view(lvec_here)[i] == (log0 + stamped.take(k))[i]);
                    assert((log0 + stamped.take(k))[i] == (log0 + stamped.take(k + 1))[i]);
                } else {
                    assert(log@[i] == entry);
                    assert((log0 + stamped.take(k + 1))[i] == stamped[k]);
                }
            }
            assert(entries_view(log@) =~~= log0 + stamped.take(k + 1));
        }
    }
    proof {
        assert(stamped.take(ev0.len() as int) =~~= stamped);
        assert(entries_view(log@) =~~= log0 + stamped);
    }
}

/// Result of routing a batch of outbound requests into the channels.
#[verifier::ext_equal]
pub ghost struct OutboundPhase {
    pub channels: Seq<ChannelModel>,
    pub err: Option<RoutingError>,
}

/// What routing a sender's outbound requests does: look the declared
/// channel up for each request in turn and enqueue the payload; stop at
/// the first missing channel (malformed topology, reported as a closed
/// channel) or refused enqueue, leaving later requests unrouted.
pub open spec fn spec_route_outbound(
    chs: Seq<ChannelModel>,
    sender: ChainId,
    obs: Seq<OutboundModel>,
    round: u64,
) -> OutboundPhase
    decreases obs.len(),
{
    if obs.len() == 0 {
        OutboundPhase { channels: chs, err: None }
    } else {
        let ob = obs[0];
        match spec_find_channel(chs, sender, ob.recipient, ob.kind) {
            None => OutboundPhase {
                channels: chs,
                err: Some(
                    RoutingError::Channel {
                        sender,
                        recipient: ob.recipient,
                        kind: ob.kind,
                        error: ChannelError::Closed,
                    },
                ),
            },
            Some(ci) => {
                let st = spec_enqueue(chs[ci], ob.payload, round);
                match st.result {
                    Err(e) => OutboundPhase {
                        channels: chs,
                        err: Some(
                            RoutingError::Channel {
                                sender,
                                recipient: ob.recipient,
                                kind: ob.kind,
                                error: e,
                            },
                        ),
                    },
                    Ok(_) => spec_route_outbound(chs.update(ci, st.channel), sender, obs.skip(1), round),
                }
            },
        }
    }
}

/// Routes a sender's outbound requests into the channels; on failure the
/// channels keep everything routed so far.
#[verifier::loop_isolation(false)]
fn route_outbound_into(
    channels: &mut Vec<MessageChannel>,
    sender: ChainId,
    outbound: Vec<OutboundMessage>,
    round: u64,
) -> (err: Option<RoutingError>)
    ensures
        ({
            let p = spec_route_outbound(
                channels_view(old(channels)@),
                sender,
                outbound_view(outbound@),
                round,
            );
            &&& channels_view(final(channels)@) == p.channels
            &&& err == p.err
        }),
{
    let ghost chs0 = channels_view(channels@);
    let ghost obs0 = outbound_view(outbound@);
    let mut outbound = outbound;
    while outbound.len() > 0
        invariant
            outbound_view(outbound@) =~= obs0.skip(obs0.len() - outbound@.len()),
            outbound@.len() <= obs0.len(),
            spec_route_outbound(chs0, sender, obs0, round) == spec_route_outbound(
                channels_view(channels@),
                sender,
                outbound_view(outbound@),
                round,
            ),
        decreases outbound@.len(),
    {
        let ghost chs_here = channels_view(channels@);
        let ghost obs_here = outbound_view(outbound@);
        let ghost vec_here = outbound@;
        let ob = outbound.remove(0);
        proof {
            assert(vec_here[0]@ == obs_here[0]);
            assert(ob@ == obs_here[0]);
            assert forall|i: int| 0 <= i < outbound@.len() implies outbound_view(outbound@)[i]
                == obs_here.skip(1)[i] by {
                assert(outbound@[i] == vec_here[i + 1]);
                assert(vec_here[i + 1]@ == obs_here[i + 1]);
            }
            assert(outbound_view(outbound@) =~= obs_here.skip(1));
            assert(obs_here =~= obs0.skip(obs0.len() - vec_here.len()));
        }
        match find_channel(channels, sender, ob.recipient, ob.kind) {
            None => {
                return Some(
                    RoutingError::Channel {
                        sender,
                        recipient: ob.recipient,
                        kind: ob.kind,
                        error: ChannelError::Closed,
                    },
                );
            },
            Some(ci) => {
                let ghost st = spec_enqueue(chs_here[ci as int], ob@.payload, round);
                let recipient = ob.recipient;
                let kind = ob.kind;
                let r = channels[ci].enqueue(ob.payload, round);
                proof {
                    assert(channels_view(channels@) =~= chs_here.update(ci as int, st.channel));
                }
                match r {
                    Err(e) => {
                        proof {
                            assert(st.channel == chs_here[ci as int]);
                            assert(channels_view(channels@) =~= chs_here);
                        }
                        return Some(
                            RoutingError::Channel { sender, recipient, kind, error: e },
                        );
                    },
                    Ok(_) => {
                    },
                }
            },
        }
    }
    proof {
        assert(outbound_view(outbound@) =~= Seq::<OutboundModel>::empty());
    }
    None
}

/// Reason reported when a submission or an envelope names a chain the
/// network does not contain.
pub const REASON_UNKNOWN_CHAIN: u64 = 100;

/// The network after every node ran its per-round bookkeeping for
/// `round`, which also becomes the network's current round.
pub open spec fn spec_round_start<R: ChainRuntime>(m: NetModel, round: u64) -> NetModel {
    NetModel {
        round,
        nodes: Seq::new(
            m.nodes.len(),
            |i: int| NodeModel { state: R::start_model(m.nodes[i].state, round), ..m.nodes[i] },
        ),
        channels: m.channels,
    }
}

/// Result of the execution phase.
#[verifier::ext_equal]
pub ghost struct ExecPhase {
    pub net: NetModel,
    pub call_result: Option<Result<(), CallError>>,
    pub err: Option<RoutingError>,
}

/// What the execution phase does: nothing without a submission; with
/// one, execute the call on the target node, stamp the emitted events
/// into its log, and route its outbound requests. A submission for an
/// unknown chain is rejected without touching any node.
pub open spec fn spec_exec_phase<R: ChainRuntime>(m: NetModel, sub: Option<SubmissionModel>) -> ExecPhase {
    match sub {
        None => ExecPhase { net: m, call_result: None, err: None },
        Some(s) => match spec_find_node(m.nodes, s.target) {
            None => ExecPhase {
                net: m,
                call_result: Some(Err(CallError { reason: REASON_UNKNOWN_CHAIN })),
                err: None,
            },
            Some(ni) => {
                let st = R::execute_model(m.nodes[ni].state, s.call, s.origin, m.round);
                let node2 = NodeModel {
                    state: st.state,
                    log: m.nodes[ni].log + stamp_events(st.events, m.nodes[ni].id, m.round),
                    ..m.nodes[ni]
                };
                let m1 = NetModel { nodes: m.nodes.update(ni, node2), ..m };
                let ob = spec_route_outbound(m1.channels, s.target, st.outbound, m.round);
                ExecPhase {
                    net: NetModel { channels: ob.channels, ..m1 },
                    call_result: Some(
                        if st.ok {
                            Ok(())
                        } else {
                            Err(CallError { reason: st.reason })
                        },
                    ),
                    err: ob.err,
                }
            },
        },
    }
}

/// Result of delivering one envelope (or of a whole routing phase).
#[verifier::ext_equal]
pub ghost struct RoutePhase {
    pub net: NetModel,
    pub halt: Option<RoutingError>,
}

/// What delivering the head envelope of channel `ci` does: hand it to
/// the recipient's runtime and stamp the emitted events; on acceptance
/// the envelope is consumed (drained) and the chained outbound requests
/// are routed; on refusal the envelope stays in place for retry and
/// routing halts.
pub open spec fn spec_deliver_one<R: ChainRuntime>(m: NetModel, ci: int) -> RoutePhase {
    if !(0 <= ci < m.channels.len() && m.channels[ci].queue.len() > 0) {
        RoutePhase { net: m, halt: None }
    } else {
        let env = m.channels[ci].queue[0];
        match spec_find_node(m.nodes, env.recipient) {
            None => RoutePhase {
                net: m,
                halt: Some(
                    RoutingError::Delivery { chain: env.recipient, reason: REASON_UNKNOWN_CHAIN },
                ),
            },
            Some(ni) => {
                let st = R::deliver_model(m.nodes[ni].state, env, m.round);
                let node2 = NodeModel {
                    state: st.state,
                    log: m.nodes[ni].log + stamp_events(st.events, m.nodes[ni].id, m.round),
                    ..m.nodes[ni]
                };
                let m1 = NetModel { nodes: m.nodes.update(ni, node2), ..m };
                if !st.ok {
                    RoutePhase {
                        net: m1,
                        halt: Some(
                            RoutingError::Delivery { chain: env.recipient, reason: st.reason },
                        ),
                    }
                } else {
                    let m2 = NetModel {
                        channels: m1.channels.update(ci, spec_drain(m1.channels[ci], 1).channel),
                        ..m1
                    };
                    let ob = spec_route_outbound(m2.channels, env.recipient, st.outbound, m.round);
                    RoutePhase { net: NetModel { channels: ob.channels, ..m2 }, halt: ob.err }
                }
            },
        }
    }
}

/// Delivers up to `remaining` head envelopes of channel `ci`, stopping
/// at the first failure or when the channel is empty.
pub open spec fn spec_route_channel<R: ChainRuntime>(m: NetModel, ci: int, remaining: nat) -> RoutePhase
    decreases remaining,
{
    if remaining == 0 || !(0 <= ci < m.channels.len()) || m.channels[ci].queue.len() == 0 {
        RoutePhase { net: m, halt: None }
    } else {
        let d = spec_deliver_one::<R>(m, ci);
        match d.halt {
            Some(e) => RoutePhase { net: d.net, halt: Some(e) },
            None => spec_route_channel::<R>(d.net, ci, (remaining - 1) as nat),
        }
    }
}

/// The routing phase from channel `ci` on: for each channel in turn,
/// deliver the envelopes that were queued when the phase began
/// (`lens[ci]` of them — envelopes enqueued by deliveries themselves
/// wait for the next round), halting at the first failure.
pub open spec fn spec_route_all<R: ChainRuntime>(m: NetModel, lens: Seq<int>, ci: int) -> RoutePhase
    decreases lens.len() - ci,
{
    if ci < 0 || ci >= lens.len() {
        RoutePhase { net: m, halt: None }
    } else {
        let c = spec_route_channel::<R>(
            m,
            ci,
            (if lens[ci] >= 0 {
                lens[ci]
            } else {
                0
            }) as nat,
        );
        match c.halt {
            Some(e) => RoutePhase { net: c.net, halt: Some(e) },
            None => spec_route_all::<R>(c.net, lens, ci + 1),
        }
    }
}

/// The queue length of every channel, snapshot at the start of the
/// routing phase.
pub open spec fn spec_lens(m: NetModel) -> Seq<int> {
    Seq::new(m.channels.len(), |i: int| m.channels[i].queue.len() as int)
}

/// Result of one whole scheduler round.
#[verifier::ext_equal]
pub ghost struct AdvanceStep {
    pub net: NetModel,
    pub report: RoundReport,
}

/// One scheduler round: the round counter advances, every node runs its
/// per-round bookkeeping, the submitted call (if any) is executed, and
/// then the routing phase delivers everything queued up to that point.
/// A failure while routing the executed call's own outbound requests
/// halts the round before any delivery.
pub open spec fn spec_advance<R: ChainRuntime>(m: NetModel, sub: Option<SubmissionModel>) -> AdvanceStep {
    let r = (m.round + 1) as u64;
    let m1 = spec_round_start::<R>(m, r);
    let e = spec_exec_phase::<R>(m1, sub);
    match e.err {
        Some(err) => AdvanceStep {
            net: e.net,
            report: RoundReport { call_result: e.call_result, routing: Some(err) },
        },
        None => {
            let rp = spec_route_all::<R>(e.net, spec_lens(e.net), 0);
            AdvanceStep {
                net: rp.net,
                report: RoundReport { call_result: e.call_result, routing: rp.halt },
            }
        },
    }
}

/// Entries stamped by `stamp_events` carry the stamping chain and round.
proof fn lemma_stamp_events(evs: Seq<EventModel>, chain: ChainId, round: u64)
    ensures
        stamp_events(evs, chain, round).len() == evs.len(),
        forall|j: int|
            0 <= j < evs.len() ==> (#[trigger] stamp_events(evs, chain, round)[j]).chain == chain
                && stamp_events(evs, chain, round)[j].round == round,
{
}

/// Routing outbound requests preserves every channel invariant: each
/// channel keeps its route and well-formedness, only grows, queued
/// rounds stay bounded by the enqueueing round, and channels of other
/// senders are untouched.
proof fn lemma_route_outbound_props(
    chs: Seq<ChannelModel>,
    sender: ChainId,
    obs: Seq<OutboundModel>,
    round: u64,
)
    requires
        forall|ci: int| 0 <= ci < chs.len() ==> channel_wf(#[trigger] chs[ci]),
        forall|ci: int| 0 <= ci < chs.len() ==> channel_kind_ok(#[trigger] chs[ci]),
        forall|ci: int, j: int|
            0 <= ci < chs.len() && 0 <= j < chs[ci].queue.len() ==> (#[trigger] chs[ci].queue[
            j]).round <= round,
    ensures
        ({
            let p = spec_route_outbound(chs, sender, obs, round);
            &&& p.channels.len() == chs.len()
            &&& forall|ci: int| 0 <= ci < chs.len() ==> channel_wf(#[trigger] p.channels[ci])
            &&& forall|ci: int| 0 <= ci < chs.len() ==> channel_kind_ok(#[trigger] p.channels[ci])
            &&& forall|ci: int|
                0 <= ci < chs.len() ==> (#[trigger] p.channels[ci]).sender == chs[ci].sender
                    && p.channels[ci].recipient == chs[ci].recipient && p.channels[ci].kind
                    == chs[ci].kind
            &&& forall|ci: int|
                0 <= ci < chs.len() ==> (#[trigger] p.channels[ci]).queue.len() >= chs[
                ci].queue.len()
            &&& forall|ci: int, j: int|
                0 <= ci < chs.len() && 0 <= j < p.channels[ci].queue.len() ==> (
                #[trigger] p.channels[ci].queue[j]).round <= round
            &&& forall|ci: int|
                0 <= ci < chs.len() && (#[trigger] chs[ci]).sender != sender ==> p.channels[ci]
                    == chs[ci]
        }),
    decreases obs.len(),
{
    if obs.len() > 0 {
        let ob = obs[0];
        match spec_find_channel(chs, sender, ob.recipient, ob.kind) {
            None => {},
            Some(ci) => {
                lemma_find_channel_in_range(chs, sender, ob.recipient, ob.kind);
                let st = spec_enqueue(chs[ci], ob.payload, round);
                match st.result {
                    Err(_) => {},
                    Ok(_) => {
                        lemma_enqueue_wf(chs[ci], ob.payload, round);
                        let chs2 = chs.update(ci, st.channel);
                        assert forall|cj: int, j: int|
                            0 <= cj < chs2.len() && 0 <= j < chs2[cj].queue.len() implies (
                        #[trigger] chs2[cj].queue[j]).round <= round by {
                            if cj == ci && j == chs[ci].queue.len() {
                            } else {
                            }
                        }
                        lemma_route_outbound_props(chs2, sender, obs.skip(1), round);
                    },
                }
            },
        }
    }
}

/// A found channel index is in range and the channel matches the route.
proof fn lemma_find_channel_in_range(
    chs: Seq<ChannelModel>,
    sender: ChainId,
    recipient: ChainId,
    kind: ChannelKind,
)
    ensures
        ({
            match spec_find_channel(chs, sender, recipient, kind) {
                Some(ci) => 0 <= ci < chs.len() && chs[ci].sender == sender && chs[ci].recipient
                    == recipient && chs[ci].kind == kind,
                None => true,
            }
        }),
    decreases chs.len(),
{
    if chs.len() > 0 && !(chs[0].sender == sender && chs[0].recipient == recipient && chs[0].kind
        == kind) {
        lemma_find_channel_in_range(chs.skip(1), sender, recipient, kind);
    }
}

/// A found node index is in range and carries the id.
proof fn lemma_find_node_in_range(nodes: Seq<NodeModel>, id: ChainId)
    ensures
        ({
            match spec_find_node(nodes, id) {
                Some(ni) => 0 <= ni < nodes.len() && nodes[ni].id == id,
                None => true,
            }
        }),
    decreases nodes.len(),
{
    if nodes.len() > 0 && nodes[0].id != id {
        lemma_find_node_in_range(nodes.skip(1), id);
    }
}

/// Starting a new round preserves well-formedness.
pub proof fn lemma_round_start_wf<R: ChainRuntime>(m: NetModel, round: u64)
    requires
        net_wf(m),
        m.round <= round,
    ensures
        net_wf(spec_round_start::<R>(m, round)),
        spec_round_start::<R>(m, round).round == round,
        spec_round_start::<R>(m, round).nodes.len() == m.nodes.len(),
        spec_round_start::<R>(m, round).channels == m.channels,
{
    let m1 = spec_round_start::<R>(m, round);
    assert forall|i: int| 0 <= i < m1.nodes.len() implies (#[trigger] m1.nodes[i]).id == m.nodes[
        i].id && m1.nodes[i].log == m.nodes[i].log && m1.nodes[i].cursor == m.nodes[i].cursor by {
    }
}

/// The execution phase preserves well-formedness and the network shape.
pub proof fn lemma_exec_phase_wf<R: ChainRuntime>(m: NetModel, sub: Option<SubmissionModel>)
    requires
        net_wf(m),
    ensures
        ({
            let e = spec_exec_phase::<R>(m, sub);
            &&& net_wf(e.net)
            &&& e.net.round == m.round
            &&& e.net.nodes.len() == m.nodes.len()
            &&& e.net.channels.len() == m.channels.len()
        }),
{
    match sub {
        None => {},
        Some(s) => {
            match spec_find_node(m.nodes, s.target) {
                None => {},
                Some(ni) => {
                    lemma_find_node_in_range(m.nodes, s.target);
                    let st = R::execute_model(m.nodes[ni].state, s.call, s.origin, m.round);
                    let stamped = stamp_events(st.events, m.nodes[ni].id, m.round);
                    lemma_stamp_events(st.events, m.nodes[ni].id, m.round);
                    let node2 = NodeModel {
                        state: st.state,
                        log: m.nodes[ni].log + stamped,
                        ..m.nodes[ni]
                    };
                    let m1 = NetModel { nodes: m.nodes.update(ni, node2), ..m };
                    assert(net_wf(m1));
                    lemma_route_outbound_props(m1.channels, s.target, st.outbound, m.round);
                    let ob = spec_route_outbound(m1.channels, s.target, st.outbound, m.round);
                    let m2 = NetModel { channels: ob.channels, ..m1 };
                    assert forall|ci: int, cj: int| 0 <= ci < cj < m2.channels.len() implies
                        !same_route(m2.channels[ci], m2.channels[cj]) by {
                        assert(!same_route(m1.channels[ci], m1.channels[cj]));
                    }
                    assert(net_wf(m2));
                },
            }
        },
    }
}

/// Delivering one envelope preserves well-formedness; the touched
/// channel shrinks by at most one entry and every other channel only
/// grows.
pub proof fn lemma_deliver_one_wf<R: ChainRuntime>(m: NetModel, ci: int)
    requires
        net_wf(m),
    ensures
        ({
            let d = spec_deliver_one::<R>(m, ci);
            &&& net_wf(d.net)
            &&& d.net.round == m.round
            &&& d.net.nodes.len() == m.nodes.len()
            &&& d.net.channels.len() == m.channels.len()
            &&& forall|j: int|
                0 <= j < m.channels.len() && j != ci ==> (#[trigger] d.net.channels[j]).queue.len()
                    >= m.channels[j].queue.len()
            &&& (0 <= ci < m.channels.len() ==> d.net.channels[ci].queue.len() >= m.channels[
                ci].queue.len() - 1)
            &&& (d.halt is None && 0 <= ci < m.channels.len() && m.channels[ci].queue.len() > 0
                ==> d.net.channels[ci].queue.len() == m.channels[ci].queue.len() - 1)
        }),
{
    if 0 <= ci < m.channels.len() && m.channels[ci].queue.len() > 0 {
        let env = m.channels[ci].queue[0];
        match spec_find_node(m.nodes, env.recipient) {
            None => {},
            Some(ni) => {
                lemma_find_node_in_range(m.nodes, env.recipient);
                let st = R::deliver_model(m.nodes[ni].state, env, m.round);
                let stamped = stamp_events(st.events, m.nodes[ni].id, m.round);
                lemma_stamp_events(st.events, m.nodes[ni].id, m.round);
                let node2 = NodeModel {
                    state: st.state,
                    log: m.nodes[ni].log + stamped,
                    ..m.nodes[ni]
                };
                let m1 = NetModel { nodes: m.nodes.update(ni, node2), ..m };
                assert(net_wf(m1));
                if st.ok {
                    lemma_drain_wf(m1.channels[ci], 1);
                    let drained = spec_drain(m1.channels[ci], 1).channel;
                    let m2 = NetModel { channels: m1.channels.update(ci, drained), ..m1 };
                    assert forall|cj: int, cj2: int| 0 <= cj < cj2 < m2.channels.len() implies
                        !same_route(m2.channels[cj], m2.channels[cj2]) by {
                        assert(!same_route(m1.channels[cj], m1.channels[cj2]));
                    }
                    assert(net_wf(m2));
                    lemma_route_outbound_props(m2.channels, env.recipient, st.outbound, m.round);
                    let ob = spec_route_outbound(m2.channels, env.recipient, st.outbound, m.round);
                    let m3 = NetModel { channels: ob.channels, ..m2 };
                    assert forall|cj: int, cj2: int| 0 <= cj < cj2 < m3.channels.len() implies
                        !same_route(m3.channels[cj], m3.channels[cj2]) by {
                        assert(!same_route(m2.channels[cj], m2.channels[cj2]));
                    }
                    assert(net_wf(m3));
                    assert(m2.channels[ci].sender == m.channels[ci].sender);
                    assert(m.channels[ci].sender != env.recipient);
                    assert(ob.channels[ci] == m2.channels[ci]);
                }
            },
        }
    }
}

fn node_at<R: ChainRuntime>(nodes: &mut Vec<ChainNode<R>>, i: usize) -> (node: &mut ChainNode<R>)
    requires
        i < old(nodes).len(),
    ensures
        *node == old(nodes)@[i as int],
        final(nodes)@ == old(nodes)@.update(i as int, *final(node)),
{
    &mut nodes[i]
}

fn channel_at(channels: &mut Vec<MessageChannel>, i: usize) -> (c: &mut MessageChannel)
    requires
        i < old(channels).len(),
    ensures
        *c == old(channels)@[i as int],
        final(channels)@ == old(channels)@.update(i as int, *final(c)),
{
    &mut channels[i]
}

impl<R: ChainRuntime> Network<R> {
    /// Executes one submission exactly as `spec_exec_phase` describes.
    fn execute_submission(&mut self, s: Submission) -> (r: (
        Option<Result<(), CallError>>,
        Option<RoutingError>,
    ))
        ensures
            ({
                let e = spec_exec_phase::<R>(old(self)@, Some(s@));
                &&& final(self)@ == e.net
                &&& r.0 == e.call_result
                &&& r.1 == e.err
            }),
    {
        let ghost m0 = self@;
        let round = self.round;
        let ni = match find_node(&self.nodes, s.target) {
            Some(ni) => ni,
            None => {
                return (Some(Err(CallError { reason: REASON_UNKNOWN_CHAIN })), None);
            },
        };
        let ghost st = R::execute_model(m0.nodes[ni as int].state, s@.call, s.origin, round);
        let ghost node2 = NodeModel {
            state: st.state,
            log: m0.nodes[ni as int].log + stamp_events(st.events, m0.nodes[ni as int].id, round),
            ..m0.nodes[ni as int]
        };
        let ghost m1 = NetModel { nodes: m0.nodes.update(ni as int, node2), ..m0 };
        proof {
            assert(nodes_view(self.nodes@)[ni as int] == m0.nodes[ni as int]);
            assert(self.nodes@[ni as int]@ == m0.nodes[ni as int]);
        }
        let out = {
            let node = node_at(&mut self.nodes, ni);
            node.runtime.execute(&s.call, s.origin, round)
        };
        let StepOutput { result, events, outbound } = out;
        {
            let node = node_at(&mut self.nodes, ni);
            let id = node.id;
            append_events(&mut node.log, id, round, events);
        }
        proof {
            assert forall|j: int| 0 <= j < self.nodes@.len() implies nodes_view(self.nodes@)[j]
                == m1.nodes[j] by {
                assert(nodes_view(self.nodes@)[j] == self.nodes@[j]@);
                if j == ni {
                    assert(self.nodes@[j]@ =~~= node2);
                }
            }
            assert(nodes_view(self.nodes@) =~~= m1.nodes);
            assert(self@ =~~= m1);
        }
        let err = route_outbound_into(&mut self.channels, s.target, outbound, round);
        proof {
            let e = spec_exec_phase::<R>(m0, Some(s@));
            assert(self@ =~~= e.net);
            assert(err == e.err);
            if st.ok {
                let u = result->Ok_0;
                assert(u == ());
                assert(result == Ok::<(), CallError>(u));
            } else {
                assert(result matches Err(ce) && ce.reason == st.reason);
                assert(result == Err::<(), CallError>(CallError { reason: st.reason }));
            }
        }
        (Some(result), err)
    }

    /// One scheduler round (see `spec_advance`): the round counter
    /// advances, every chain runs its per-round bookkeeping, the
    /// submitted call (if any) executes on its target chain, and then
    /// the routing phase drains and delivers every envelope enqueued
    /// during or before this round — envelopes enqueued by deliveries
    /// themselves wait for the next round. The whole outcome is a
    /// function of the previous network state and the submission alone.
    #[verifier::loop_isolation(false)]
    pub fn advance_round(&mut self, submission: Option<Submission>) -> (report: RoundReport)
        requires
            net_wf(old(self)@),
            old(self).round < u64::MAX,
        ensures
            final(self)@ == spec_advance::<R>(old(self)@, submission_view(submission)).net,
            report == spec_advance::<R>(old(self)@, submission_view(submission)).report,
            net_wf(final(self)@),
            final(self)@.round == old(self)@.round + 1,
    {
        let ghost m0 = self@;
        let ghost msub = submission_view(submission);
        let round = self.round + 1;
        self.round = round;
        let ghost m1 = spec_round_start::<R>(m0, round);
        let n = self.nodes.len();
        let mut i: usize = 0;
        while i < n
            invariant
                i <= n,
                self.nodes@.len() == n,
                self.round == round,
                channels_view(self.channels@) == m0.channels,
                forall|j: int| 0 <= j < i ==> nodes_view(self.nodes@)[j] == m1.nodes[j],
                forall|j: int| i <= j < n ==> nodes_view(self.nodes@)[j] == m0.nodes[j],
            decreases n - i,
        {
            proof {
                assert(self.nodes@[i as int]@ == m0.nodes[i as int]);
            }
            let node = node_at(&mut self.nodes, i);
            node.runtime.on_round_start(round);
            i = i + 1;
            proof {
                assert forall|j: int| 0 <= j < i implies nodes_view(self.nodes@)[j]
                    == m1.nodes[j] by {
                    assert(nodes_view(self.nodes@)[j] == self.nodes@[j]@);
                    if j == i - 1 {
                        assert(self.nodes@[j]@ =~~= m1.nodes[j]);
                    }
                }
                assert forall|j: int| i <= j < n implies nodes_view(self.nodes@)[j]
                    == m0.nodes[j] by {
                    assert(nodes_view(self.nodes@)[j] == self.nodes@[j]@);
                }
            }
        }
        proof {
            assert(nodes_view(self.nodes@) =~~= m1.nodes);
            assert(self@ =~~= m1);
            lemma_round_start_wf::<R>(m0, round);
        }
        let ghost e = spec_exec_phase::<R>(m1, msub);
        let mut call_result: Option<Result<(), CallError>> = None;
        let mut halt: Option<RoutingError> = None;
        match submission {
            None => {},
            Some(s) => {
                let (cr, err) = self.execute_submission(s);
                call_result = cr;
                halt = err;
            },
        }
        proof {
            assert(self@ == e.net);
            assert(call_result == e.call_result);
            assert(halt == e.err);
            lemma_exec_phase_wf::<R>(m1, msub);
        }
        if halt.is_some() {
            return RoundReport { call_result, routing: halt };
        }
        let ghost m2 = e.net;
        let ghost lensq = spec_lens(m2);
        let mut lens: Vec<usize> = Vec::new();
        let mut ci: usize = 0;
        while ci < self.channels.len()
            invariant
                ci <= self.channels@.len(),
                self@ == m2,
                lens@.len() == ci,
                forall|j: int| 0 <= j < ci ==> lens@[j] as int == lensq[j],
            decreases self.channels@.len() - ci,
        {
            let c = &self.channels[ci];
            let l = c.len();
            proof {
                assert(c@ == channels_view(self.channels@)[ci as int]);
            }
            lens.push(l);
            ci = ci + 1;
        }
        let mut ci: usize = 0;
        while ci < self.channels.len() && halt.is_none()
            invariant
                ci <= lens@.len(),
                lens@.len() == m2.channels.len(),
                forall|j: int| 0 <= j < lens@.len() ==> lens@[j] as int == lensq[j],
                self.channels@.len() == m2.channels.len(),
                net_wf(self@),
                self@.round == round,
                match halt {
                    None => spec_route_all::<R>(m2, lensq, 0) == spec_route_all::<R>(
                        self@,
                        lensq,
                        ci as int,
                    ),
                    Some(err) => spec_route_all::<R>(m2, lensq, 0) == (RoutePhase {
                        net: self@,
                        halt: Some(err),
                    }),
                },
                forall|j: int|
                    ci <= j < lensq.len() ==> (#[trigger] self@.channels[j]).queue.len() >= lensq[j],
            decreases lens@.len() - ci,
        {
            let ghost mci = self@;
            let mut rem: usize = lens[ci];
            proof {
                assert(lensq[ci as int] >= 0);
                assert(rem as int == lensq[ci as int]);
            }
            while rem > 0 && halt.is_none()
                invariant
                    ci < lens@.len(),
                    lens@.len() == m2.channels.len(),
                    rem as int <= lensq[ci as int],
                    self.channels@.len() == m2.channels.len(),
                    net_wf(self@),
                    self@.round == round,
                    self@.channels[ci as int].queue.len() >= rem,
                    forall|j: int|
                        0 <= j < lensq.len() && j != ci ==> (#[trigger] self@.channels[
                        j]).queue.len() >= mci.channels[j].queue.len(),
                    match halt {
                        None => spec_route_channel::<R>(mci, ci as int, lensq[ci as int] as nat)
                            == spec_route_channel::<R>(self@, ci as int, rem as nat),
                        Some(err) => spec_route_channel::<R>(mci, ci as int, lensq[ci as int] as nat)
                            == (RoutePhase { net: self@, halt: Some(err) }),
                    },
                decreases rem,
            {
                let ghost mprev = self@;
                proof {
                    assert(channel_wf(mprev.channels[ci as int]));
                    assert(mprev.channels[ci as int].queue.len() > 0);
                }
                let h = self.deliver_head(ci);
                rem = rem - 1;
                proof {
                    lemma_deliver_one_wf::<R>(mprev, ci as int);
                    let d = spec_deliver_one::<R>(mprev, ci as int);
                    assert(self@ == d.net);
                    assert(h == d.halt);
                }
                match h {
                    None => {},
                    Some(err) => {
                        halt = Some(err);
                    },
                }
            }
            proof {
                match halt {
                    Option::None => {
                        assert(spec_route_channel::<R>(self@, ci as int, 0) == (RoutePhase {
                            net: self@,
                            halt: Option::<RoutingError>::None,
                        }));
                        assert(spec_route_channel::<R>(mci, ci as int, lensq[ci as int] as nat)
                            == (RoutePhase { net: self@, halt: Option::<RoutingError>::None }));
                        assert(spec_route_all::<R>(mci, lensq, ci as int) == spec_route_all::<R>(
                            self@,
                            lensq,
                            ci as int + 1,
                        ));
                    },
                    Option::Some(_) => {
                        assert(spec_route_all::<R>(mci, lensq, ci as int) == (RoutePhase {
                            net: self@,
                            halt,
                        }));
                    },
                }
            }
            ci = ci + 1;
        }
        proof {
            let rp = spec_route_all::<R>(m2, lensq, 0);
            if halt is None {
                assert(spec_route_all::<R>(self@, lensq, ci as int) == (RoutePhase {
                    net: self@,
                    halt: Option::<RoutingError>::None,
                }));
            }
            assert(self@ == rp.net);
            assert(halt == rp.halt);
        }
        RoundReport { call_result, routing: halt }
    }

    /// The events `chain` emitted since its last checkpoint, as copies,
    /// in emission order. Read-only: neither the log nor the cursor
    /// changes, so the call is repeatable. `None` for an unknown chain.
    pub fn events_since(&self, chain: ChainId) -> (r: Option<Vec<EventLogEntry>>)
        requires
            net_wf(self@),
        ensures
            ({
                match spec_find_node(self@.nodes, chain) {
                    Some(ni) => r matches Some(es) && entries_view(es@) == self@.nodes[ni].log.skip(
                        self@.nodes[ni].cursor,
                    ),
                    None => r is None,
                }
            }),
    {
        match find_node(&self.nodes, chain) {
            None => None,
            Some(ni) => {
                let node = &self.nodes[ni];
                proof {
                    assert(node@ == nodes_view(self.nodes@)[ni as int]);
                }
                Some(copy_entries(&node.log, node.cursor))
            },
        }
    }

    /// Moves `chain`'s cursor to the end of its log, so later matching
    /// starts from here; cursor advancement is explicit and separate
    /// from matching. Returns whether the chain exists.
    pub fn checkpoint(&mut self, chain: ChainId) -> (r: bool)
        ensures
            ({
                match spec_find_node(old(self)@.nodes, chain) {
                    Some(ni) => r && final(self)@ == (NetModel {
                        nodes: old(self)@.nodes.update(
                            ni,
                            NodeModel {
                                cursor: old(self)@.nodes[ni].log.len() as int,
                                ..old(self)@.nodes[ni]
                            },
                        ),
                        ..old(self)@
                    }),
                    None => !r && final(self)@ == old(self)@,
                }
            }),
            net_wf(old(self)@) ==> net_wf(final(self)@),
    {
        match find_node(&self.nodes, chain) {
            None => false,
            Some(ni) => {
                let ghost m0 = self@;
                proof {
                    assert(self.nodes@[ni as int]@ == m0.nodes[ni as int]);
                }
                let node = node_at(&mut self.nodes, ni);
                node.cursor = node.log.len();
                proof {
                    let node2 = NodeModel {
                        cursor: m0.nodes[ni as int].log.len() as int,
                        ..m0.nodes[ni as int]
                    };
                    assert forall|j: int| 0 <= j < self.nodes@.len() implies nodes_view(
                        self.nodes@,
                    )[j] == m0.nodes.update(ni as int, node2)[j] by {
                        assert(nodes_view(self.nodes@)[j] == self.nodes@[j]@);
                        if j == ni {
                            assert(self.nodes@[j]@ =~~= node2);
                        }
                    }
                    assert(nodes_view(self.nodes@) =~~= m0.nodes.update(ni as int, node2));
                    assert(self@ =~~= NetModel {
                        nodes: m0.nodes.update(ni as int, node2),
                        ..m0
                    });
                }
                true
            },
        }
    }

    /// Matches an ordered list of expected event patterns against the
    /// events `chain` emitted since its checkpoint: the patterns must
    /// appear in relative order, possibly interleaved with other events.
    /// Read-only; a failure names the first unmatched pattern and hands
    /// the observed events back. An unknown chain fails on the first
    /// pattern with an empty observation.
    pub fn assert_events(&self, chain: ChainId, patterns: &Vec<EventPattern>) -> (r: Result<
        (),
        AssertionFailure,
    >)
        requires
            net_wf(self@),
        ensures
            ({
                match spec_find_node(self@.nodes, chain) {
                    Some(ni) => {
                        let tail = self@.nodes[ni].log.skip(self@.nodes[ni].cursor);
                        let ps = patterns_view(patterns@);
                        &&& (r is Ok <==> spec_assertion_holds(tail, ps))
                        &&& (r matches Err(f) ==> f.expected_pattern_index == spec_match_count(
                            tail,
                            ps,
                        ) && f.expected_pattern_index < ps.len() && entries_view(f.observed@)
                            == tail)
                    },
                    None => r matches Err(f) && f.expected_pattern_index == 0 && f.observed@.len()
                        == 0,
                }
            }),
    {
        match find_node(&self.nodes, chain) {
            None => Err(AssertionFailure { expected_pattern_index: 0, observed: Vec::new() }),
            Some(ni) => {
                let node = &self.nodes[ni];
                proof {
                    assert(node@ == nodes_view(self.nodes@)[ni as int]);
                }
                check_events(&node.log, node.cursor, patterns)
            },
        }
    }

    /// True when no channel holds an undelivered envelope.
    pub fn is_quiescent(&self) -> (r: bool)
        ensures
            r == spec_quiescent(self@),
    {
        let mut ci: usize = 0;
        while ci < self.channels.len()
            invariant
                ci <= self.channels@.len(),
                forall|j: int| 0 <= j < ci ==> self@.channels[j].queue.len() == 0,
            decreases self.channels@.len() - ci,
        {
            let c = &self.channels[ci];
            proof {
                assert(c@ == channels_view(self.channels@)[ci as int]);
            }
            if c.len() > 0 {
                return false;
            }
            ci = ci + 1;
        }
        true
    }

    /// Runs a whole scenario: one round per entry, each with its
    /// (optional) submission, in order.
    #[verifier::loop_isolation(false)]
    pub fn run_scenario(&mut self, subs: Vec<Option<Submission>>)
        requires
            net_wf(old(self)@),
            old(self).round + subs@.len() <= u64::MAX,
        ensures
            final(self)@ == spec_run::<R>(old(self)@, subs_view(subs@)),
            net_wf(final(self)@),
    {
        let ghost m0 = self@;
        let ghost subs0 = subs_view(subs@);
        let mut subs = subs;
        while subs.len() > 0
            invariant
                subs@.len() <= subs0.len(),
                subs_view(subs@) =~= subs0.skip(subs0.len() - subs@.len()),
                self@.round + subs@.len() <= u64::MAX,
                net_wf(self@),
                spec_run::<R>(m0, subs0) == spec_run::<R>(self@, subs_view(subs@)),
            decreases subs@.len(),
        {
            let ghost svec_here = subs@;
            let ghost srem_here = subs_view(subs@);
            let ghost k = subs0.len() - subs@.len();
            let sub = subs.remove(0);
            proof {
                assert(svec_here[0] == sub);
                assert(submission_view(sub) == srem_here[0]);
                assert forall|i: int| 0 <= i < subs@.len() implies subs_view(subs@)[i]
                    == srem_here.skip(1)[i] by {
                    assert(subs@[i] == svec_here[i + 1]);
                    assert(subs_view(svec_here)[i + 1] == submission_view(svec_here[i + 1]));
                }
                assert(subs_view(subs@) =~= srem_here.skip(1));
                assert(srem_here.skip(1) =~= subs0.skip(k + 1));
            }
            let _ = self.advance_round(sub);
        }
        proof {
            assert(subs_view(subs@) =~= Seq::<Option<SubmissionModel>>::empty());
        }
    }

    /// Advances `k` rounds with no submission, delivering pending
    /// cross-chain traffic.
    #[verifier::loop_isolation(false)]
    pub fn run_rounds(&mut self, k: u64)
        requires
            net_wf(old(self)@),
            old(self).round + k <= u64::MAX,
        ensures
            final(self)@ == spec_run_idle::<R>(old(self)@, k as nat),
            net_wf(final(self)@),
            final(self)@.round == old(self)@.round + k,
    {
        let ghost m0 = self@;
        let mut j: u64 = 0;
        while j < k
            invariant
                j <= k,
                self@ == spec_run_idle::<R>(m0, j as nat),
                net_wf(self@),
                self@.round == m0.round + j,
            decreases k - j,
        {
            let _ = self.advance_round(None);
            j = j + 1;
        }
    }
}

/// A fatal scenario-setup failure: the declared topology is malformed.
#[derive(Clone, Copy, PartialEq, Eq, Structural, Debug)]
pub struct SetupError {
    pub reason: u64,
}

/// Two secondary chains were declared with the same id.
pub const REASON_DUP_PARA: u64 = 200;

/// A declared horizontal channel joins a chain to itself, names an
/// undeclared chain, or duplicates another declared channel.
pub const REASON_BAD_PAIR: u64 = 201;

/// A declared topology is acceptable when the para ids are unique and
/// every horizontal channel joins two distinct, declared para chains
/// and is declared at most once.
pub open spec fn config_ok(ids: Seq<u32>, horizontal: Seq<(u32, u32)>) -> bool {
    &&& forall|i: int, j: int| 0 <= i < j < ids.len() ==> ids[i] != ids[j]
    &&& forall|k: int|
        0 <= k < horizontal.len() ==> (#[trigger] horizontal[k]).0 != horizontal[k].1
            && ids.contains(horizontal[k].0) && ids.contains(horizontal[k].1)
    &&& forall|k: int, l: int| 0 <= k < l < horizontal.len() ==> horizontal[k] != horizontal[l]
}

/// A fresh, open, empty channel model.
pub open spec fn fresh_channel(kind: ChannelKind, sender: ChainId, recipient: ChainId) -> ChannelModel {
    ChannelModel {
        kind,
        sender,
        recipient,
        closed: false,
        next_sequence: 0,
        drained: 0,
        queue: Seq::empty(),
    }
}

/// The channels a declared topology creates: one downward and one
/// upward channel per para chain, and one horizontal channel per
/// declared ordered pair. Secondary-to-secondary delivery happens only
/// over a declared horizontal channel — there is no implicit relay hop;
/// an undeclared route fails at routing time.
pub open spec fn spec_build_channels(ids: Seq<u32>, horizontal: Seq<(u32, u32)>) -> Seq<ChannelModel> {
    Seq::new(
        ids.len(),
        |i: int| fresh_channel(ChannelKind::Downward, ChainId::Relay, ChainId::Para(ids[i])),
    ) + Seq::new(
        ids.len(),
        |i: int| fresh_channel(ChannelKind::Upward, ChainId::Para(ids[i]), ChainId::Relay),
    ) + Seq::new(
        horizontal.len(),
        |k: int| fresh_channel(
            ChannelKind::Horizontal,
            ChainId::Para(horizontal[k].0),
            ChainId::Para(horizontal[k].1),
        ),
    )
}

/// The nodes a declared topology creates: the relay chain first, then
/// one node per para chain, each with an empty log.
pub open spec fn spec_build_nodes(relay_state: Seq<u64>, paras: Seq<(u32, Seq<u64>)>) -> Seq<NodeModel> {
    seq![NodeModel { id: ChainId::Relay, state: relay_state, log: Seq::empty(), cursor: 0 }]
        + Seq::new(
        paras.len(),
        |i: int| NodeModel {
            id: ChainId::Para(paras[i].0),
            state: paras[i].1,
            log: Seq::empty(),
            cursor: 0,
        },
    )
}

/// The network model a declared topology creates, at round zero.
pub open spec fn spec_build(
    relay_state: Seq<u64>,
    paras: Seq<(u32, Seq<u64>)>,
    horizontal: Seq<(u32, u32)>,
) -> NetModel {
    NetModel {
        nodes: spec_build_nodes(relay_state, paras),
        channels: spec_build_channels(paras.map_values(|p: (u32, Seq<u64>)| p.0), horizontal),
        round: 0,
    }
}

fn contains_u32(v: &Vec<u32>, x: u32) -> (r: bool)
    ensures
        r == v@.contains(x),
{
    let mut i: usize = 0;
    while i < v.len()
        invariant
            i <= v@.len(),
            forall|j: int| 0 <= j < i ==> v@[j] != x,
        decreases v@.len() - i,
    {
        if v[i] == x {
            return true;
        }
        i = i + 1;
    }
    proof {
        assert(!v@.contains(x));
    }
    false
}

/// A well-formed declared topology builds a well-formed network.
proof fn lemma_build_wf(
    relay_state: Seq<u64>,
    paras: Seq<(u32, Seq<u64>)>,
    horizontal: Seq<(u32, u32)>,
)
    requires
        config_ok(paras.map_values(|p: (u32, Seq<u64>)| p.0), horizontal),
    ensures
        net_wf(spec_build(relay_state, paras, horizontal)),
{
    let ids = paras.map_values(|p: (u32, Seq<u64>)| p.0);
    let m = spec_build(relay_state, paras, horizontal);
    let nd = ids.len() as int;
    assert forall|ci: int| 0 <= ci < m.channels.len() implies channel_wf(#[trigger] m.channels[ci])
        && channel_kind_ok(m.channels[ci]) && m.channels[ci].queue.len() == 0 by {
        if ci < nd {
            assert(m.channels[ci] == fresh_channel(
                ChannelKind::Downward,
                ChainId::Relay,
                ChainId::Para(ids[ci]),
            ));
        } else if ci < 2 * nd {
            assert(m.channels[ci] == fresh_channel(
                ChannelKind::Upward,
                ChainId::Para(ids[ci - nd]),
                ChainId::Relay,
            ));
        } else {
            let k = ci - 2 * nd;
            assert(m.channels[ci] == fresh_channel(
                ChannelKind::Horizontal,
                ChainId::Para(horizontal[k].0),
                ChainId::Para(horizontal[k].1),
            ));
            assert(horizontal[k].0 != horizontal[k].1);
        }
    }
    assert forall|ci: int, cj: int| 0 <= ci < cj < m.channels.len() implies !same_route(
        m.channels[ci],
        m.channels[cj],
    ) by {
        if cj < nd {
            assert(ids[ci] != ids[cj]);
        } else if ci < nd {
        } else if cj < 2 * nd {
            assert(ids[ci - nd] != ids[cj - nd]);
        } else if ci < 2 * nd {
        } else {
            assert(horizontal[ci - 2 * nd] != horizontal[cj - 2 * nd]);
        }
    }
    assert forall|i: int, j: int| 0 <= i < j < m.nodes.len() implies m.nodes[i].id != m.nodes[
        j].id by {
        if i > 0 {
            assert(ids[i - 1] != ids[j - 1]);
        }
    }
    assert(net_wf(m));
}

impl<R: ChainRuntime> Network<R> {
    /// Builds a network from its declarative description: the relay
    /// runtime, one runtime per declared para chain, and the declared
    /// horizontal (para-to-para) channels as ordered sender/recipient
    /// pairs. Downward and upward channels to every para chain come by
    /// themselves. Fails — before any round can run — when two para
    /// chains share an id (`REASON_DUP_PARA`) or a declared pair is
    /// reflexive, names an undeclared chain, or repeats an earlier pair
    /// (`REASON_BAD_PAIR`).
    #[verifier::loop_isolation(false)]
    pub fn new(relay_runtime: R, paras: Vec<(u32, R)>, horizontal: Vec<(u32, u32)>) -> (r: Result<
        Network<R>,
        SetupError,
    >)
        ensures
            ({
                let ids = paras@.map_values(|p: (u32, R)| p.0);
                let pm = paras@.map_values(|p: (u32, R)| (p.0, p.1.state_model()));
                &&& (r is Ok <==> config_ok(ids, horizontal@))
                &&& (r matches Ok(net) ==> net@ == spec_build(
                    relay_runtime.state_model(),
                    pm,
                    horizontal@,
                ) && net_wf(net@) && net@.round == 0)
                &&& (r matches Err(e) ==> e.reason == REASON_DUP_PARA || e.reason
                    == REASON_BAD_PAIR)
            }),
    {
        let ghost ids_m = paras@.map_values(|p: (u32, R)| p.0);
        let ghost pm = paras@.map_values(|p: (u32, R)| (p.0, p.1.state_model()));
        let mut ids: Vec<u32> = Vec::new();
        let mut i: usize = 0;
        while i < paras.len()
            invariant
                i <= paras@.len(),
                ids@.len() == i,
                forall|j: int| 0 <= j < i ==> ids@[j] == ids_m[j],
            decreases paras@.len() - i,
        {
            let p = &paras[i];
            ids.push(p.0);
            i = i + 1;
        }
        proof {
            assert(ids@ =~= ids_m);
        }
        let mut i: usize = 0;
        while i < ids.len()
            invariant
                i <= ids@.len(),
                forall|a: int, b: int| 0 <= a < b < i ==> ids@[a] != ids@[b],
            decreases ids@.len() - i,
        {
            let mut j: usize = 0;
            while j < i
                invariant
                    j <= i < ids@.len(),
                    forall|a: int, b: int| 0 <= a < b < i ==> ids@[a] != ids@[b],
                    forall|b: int| 0 <= b < j ==> ids@[b] != ids@[i as int],
                decreases i - j,
            {
                if ids[j] == ids[i] {
                    return Err(SetupError { reason: REASON_DUP_PARA });
                }
                j = j + 1;
            }
            i = i + 1;
        }
        let mut k: usize = 0;
        while k < horizontal.len()
            invariant
                k <= horizontal@.len(),
                forall|a: int, b: int| 0 <= a < b < ids@.len() ==> ids@[a] != ids@[b],
                forall|l: int|
                    0 <= l < k ==> (#[trigger] horizontal@[l]).0 != horizontal@[l].1
                        && ids@.contains(horizontal@[l].0) && ids@.contains(horizontal@[l].1),
                forall|a: int, b: int| 0 <= a < b < k ==> horizontal@[a] != horizontal@[b],
            decreases horizontal@.len() - k,
        {
            let (a, b) = horizontal[k];
            if a == b || !contains_u32(&ids, a) || !contains_u32(&ids, b) {
                return Err(SetupError { reason: REASON_BAD_PAIR });
            }
            let mut l: usize = 0;
            while l < k
                invariant
                    l <= k < horizontal@.len(),
                    a == horizontal@[k as int].0,
                    b == horizontal@[k as int].1,
                    forall|c: int| 0 <= c < l ==> horizontal@[c] != horizontal@[k as int],
                decreases k - l,
            {
                let (c, d) = horizontal[l];
                if c == a && d == b {
                    proof {
                        assert(horizontal@[l as int] == horizontal@[k as int]);
                    }
                    return Err(SetupError { reason: REASON_BAD_PAIR });
                }
                proof {
                    assert(horizontal@[l as int] != horizontal@[k as int]);
                }
                l = l + 1;
            }
            k = k + 1;
        }
        proof {
            assert(config_ok(ids_m, horizontal@));
        }
        let mut channels: Vec<MessageChannel> = Vec::new();
        let mut i: usize = 0;
        while i < ids.len()
            invariant
                i <= ids@.len(),
                ids@ == ids_m,
                channels@.len() == i,
                forall|j: int|
                    0 <= j < i ==> (#[trigger] channels@[j])@ == fresh_channel(
                        ChannelKind::Downward,
                        ChainId::Relay,
                        ChainId::Para(ids_m[j]),
                    ),
            decreases ids@.len() - i,
        {
            channels.push(MessageChannel::new(ChannelKind::Downward, ChainId::Relay, ChainId::Para(ids[i])));
            i = i + 1;
        }
        let mut i: usize = 0;
        while i < ids.len()
            invariant
                i <= ids@.len(),
                ids@ == ids_m,
                channels@.len() == ids_m.len() + i,
                forall|j: int|
                    0 <= j < ids_m.len() ==> (#[trigger] channels@[j])@ == fresh_channel(
                        ChannelKind::Downward,
                        ChainId::Relay,
                        ChainId::Para(ids_m[j]),
                    ),
                forall|j: int|
                    0 <= j < i ==> (#[trigger] channels@[ids_m.len() + j])@ == fresh_channel(
                        ChannelKind::Upward,
                        ChainId::Para(ids_m[j]),
                        ChainId::Relay,
                    ),
            decreases ids@.len() - i,
        {
            channels.push(MessageChannel::new(ChannelKind::Upward, ChainId::Para(ids[i]), ChainId::Relay));
            i = i + 1;
        }
        let mut k: usize = 0;
        while k < horizontal.len()
            invariant
                k <= horizontal@.len(),
                ids@ == ids_m,
                channels@.len() == 2 * ids_m.len() + k,
                forall|j: int|
                    0 <= j < ids_m.len() ==> (#[trigger] channels@[j])@ == fresh_channel(
                        ChannelKind::Downward,
                        ChainId::Relay,
                        ChainId::Para(ids_m[j]),
                    ),
                forall|j: int|
                    0 <= j < ids_m.len() ==> (#[trigger] channels@[ids_m.len() + j])@
                        == fresh_channel(
                        ChannelKind::Upward,
                        ChainId::Para(ids_m[j]),
                        ChainId::Relay,
                    ),
                forall|l: int|
                    0 <= l < k ==> (#[trigger] channels@[2 * ids_m.len() + l])@ == fresh_channel(
                        ChannelKind::Horizontal,
                        ChainId::Para(horizontal@[l].0),
                        ChainId::Para(horizontal@[l].1),
                    ),
                forall|l: int|
                    0 <= l < horizontal@.len() ==> (#[trigger] horizontal@[l]).0 != horizontal@[
                    l].1,
            decreases horizontal@.len() - k,
        {
            let (a, b) = horizontal[k];
            channels.push(MessageChannel::new(ChannelKind::Horizontal, ChainId::Para(a), ChainId::Para(b)));
            k = k + 1;
        }
        let ghost relay_state = relay_runtime.state_model();
        let mut nodes: Vec<ChainNode<R>> = Vec::new();
        nodes.push(ChainNode { id: ChainId::Relay, runtime: relay_runtime, log: Vec::new(), cursor: 0 });
        proof {
            assert(nodes@[0]@ =~~= spec_build_nodes(relay_state, pm)[0]);
            assert forall|j: int| 0 <= j < nodes@.len() implies (#[trigger] nodes_view(nodes@)[j])
                == spec_build_nodes(relay_state, pm)[j] by {
                assert(nodes_view(nodes@)[j] == nodes@[j]@);
            }
        }
        let mut paras = paras;
        while paras.len() > 0
            invariant
                paras@.len() <= pm.len(),
                nodes@.len() == 1 + pm.len() - paras@.len(),
                forall|j: int|
                    0 <= j < paras@.len() ==> (#[trigger] paras@[j]).0 == pm[pm.len()
                        - paras@.len() + j].0 && paras@[j].1.state_model() == pm[pm.len()
                        - paras@.len() + j].1,
                forall|j: int|
                    0 <= j < nodes@.len() ==> (#[trigger] nodes_view(nodes@)[j]) == spec_build_nodes(
                        relay_state,
                        pm,
                    )[j],
            decreases paras@.len(),
        {
            let ghost done = pm.len() - paras@.len();
            let ghost pvec_here = paras@;
            let (id, rt) = paras.remove(0);
            proof {
                assert(pvec_here[0].0 == pm[done].0);
                assert(pvec_here[0].1.state_model() == pm[done].1);
                assert forall|j: int| 0 <= j < paras@.len() implies (#[trigger] paras@[j]).0
                    == pm[done + 1 + j].0 && paras@[j].1.state_model() == pm[done + 1 + j].1 by {
                    assert(paras@[j] == pvec_here[j + 1]);
                }
            }
            let node = ChainNode { id: ChainId::Para(id), runtime: rt, log: Vec::new(), cursor: 0 };
            proof {
                assert(node@ =~~= spec_build_nodes(relay_state, pm)[1 + done]);
            }
            let ghost nvec_here = nodes@;
            nodes.push(node);
            proof {
                assert forall|j: int| 0 <= j < nodes@.len() implies (#[trigger] nodes_view(
                    nodes@,
                )[j]) == spec_build_nodes(relay_state, pm)[j] by {
                    assert(nodes_view(nodes@)[j] == nodes@[j]@);
                    if j < nvec_here.len() {
                        assert(nodes@[j] == nvec_here[j]);
                        assert(nodes_view(nvec_here)[j] == nvec_here[j]@);
                    } else {
                        assert(nodes@[j] == node);
                    }
                }
            }
        }
        let net = Network { nodes, channels, round: 0 };
        proof {
            assert(nodes_view(net.nodes@) =~~= spec_build_nodes(relay_state, pm));
            assert forall|ci: int| 0 <= ci < net.channels@.len() implies channels_view(
                net.channels@,
            )[ci] == spec_build_channels(ids_m, horizontal@)[ci] by {
                assert(channels_view(net.channels@)[ci] == net.channels@[ci]@);
                let nd = ids_m.len() as int;
                if ci < nd {
                    assert(net.channels@[ci]@ == fresh_channel(
                        ChannelKind::Downward,
                        ChainId::Relay,
                        ChainId::Para(ids_m[ci]),
                    ));
                } else if ci < 2 * nd {
                    let j = ci - nd;
                    assert(net.channels@[nd + j]@ == fresh_channel(
                        ChannelKind::Upward,
                        ChainId::Para(ids_m[j]),
                        ChainId::Relay,
                    ));
                } else {
                    let l = ci - 2 * nd;
                    assert(net.channels@[2 * nd + l]@ == fresh_channel(
                        ChannelKind::Horizontal,
                        ChainId::Para(horizontal@[l].0),
                        ChainId::Para(horizontal@[l].1),
                    ));
                }
            }
            assert(channels_view(net.channels@) =~~= spec_build_channels(ids_m, horizontal@));
            assert(net@ =~~= spec_build(relay_state, pm, horizontal@));
            assert(pm.map_values(|p: (u32, Seq<u64>)| p.0) =~= ids_m);
            lemma_build_wf(relay_state, pm, horizontal@);
        }
        Ok(net)
    }
}

/// No channel holds an undelivered envelope.
pub open spec fn spec_quiescent(m: NetModel) -> bool {
    forall|ci: int| 0 <= ci < m.channels.len() ==> (#[trigger] m.channels[ci]).queue.len() == 0
}

/// The network after `k` rounds with no submission.
pub open spec fn spec_run_idle<R: ChainRuntime>(m: NetModel, k: nat) -> NetModel
    decreases k,
{
    if k == 0 {
        m
    } else {
        spec_advance::<R>(spec_run_idle::<R>(m, (k - 1) as nat), None).net
    }
}

/// The network after running a scenario: one round per entry, each with
/// its (optional) submission, in order.
pub open spec fn spec_run<R: ChainRuntime>(m: NetModel, subs: Seq<Option<SubmissionModel>>) -> NetModel
    decreases subs.len(),
{
    if subs.len() == 0 {
        m
    } else {
        spec_run::<R>(spec_advance::<R>(m, subs[0]).net, subs.skip(1))
    }
}

pub open spec fn subs_view(s: Seq<Option<Submission>>) -> Seq<Option<SubmissionModel>> {
    s.map_values(|sub: Option<Submission>| submission_view(sub))
}

/// Determinism law: a scheduler round is a function of the network
/// model and the submission alone, so two runs of the same scenario
/// from equal genesis models with equal submission sequences produce
/// equal networks — in particular, byte-identical event logs on every
/// chain.
pub proof fn lemma_deterministic<R: ChainRuntime>(
    a: NetModel,
    b: NetModel,
    sub: Option<SubmissionModel>,
)
    requires
        a == b,
    ensures
        spec_advance::<R>(a, sub) == spec_advance::<R>(b, sub),
{
}

/// Determinism law, over a whole scenario: equal genesis models and
/// equal submission sequences give equal final networks, so every
/// chain's event log comes out identical. `run_scenario` pins its
/// result to `spec_run`, so this holds of the executable engine.
pub proof fn lemma_deterministic_scenario<R: ChainRuntime>(
    a: NetModel,
    b: NetModel,
    subs: Seq<Option<SubmissionModel>>,
)
    requires
        a == b,
    ensures
        spec_run::<R>(a, subs) == spec_run::<R>(b, subs),
        forall|i: int|
            0 <= i < spec_run::<R>(a, subs).nodes.len() ==> (#[trigger] spec_run::<R>(
                a,
                subs,
            ).nodes[i]).log == spec_run::<R>(b, subs).nodes[i].log,
{
}

/// Round-delay law: in a well-formed network every queued envelope was
/// enqueued in the current round or earlier, so what a delivery step
/// hands to `deliver_inbound` — always the head of a queue, in the
/// round the network is in — was never enqueued in a later round: an
/// envelope enqueued during round N is delivered in round N at the
/// earliest.
pub proof fn lemma_round_delay<R: ChainRuntime>(m: NetModel, ci: int)
    requires
        net_wf(m),
        0 <= ci < m.channels.len(),
        m.channels[ci].queue.len() > 0,
    ensures
        m.channels[ci].queue[0].round <= m.round,
        spec_deliver_one::<R>(m, ci).net.round == m.round,
        net_wf(spec_deliver_one::<R>(m, ci).net),
{
    lemma_deliver_one_wf::<R>(m, ci);
}

/// Routing up to `remaining` envelopes of one channel preserves
/// well-formedness and the round.
pub proof fn lemma_route_channel_wf<R: ChainRuntime>(m: NetModel, ci: int, remaining: nat)
    requires
        net_wf(m),
    ensures
        net_wf(spec_route_channel::<R>(m, ci, remaining).net),
        spec_route_channel::<R>(m, ci, remaining).net.round == m.round,
    decreases remaining,
{
    if !(remaining == 0 || !(0 <= ci < m.channels.len()) || m.channels[ci].queue.len() == 0) {
        let d = spec_deliver_one::<R>(m, ci);
        lemma_deliver_one_wf::<R>(m, ci);
        match d.halt {
            Some(_) => {},
            None => {
                lemma_route_channel_wf::<R>(d.net, ci, (remaining - 1) as nat);
            },
        }
    }
}

/// The envelopes the routing phase hands to `deliver_inbound` while
/// working through channel `ci`: always the momentary head of the
/// channel, including the one whose delivery (or whose chained routing)
/// halts the phase.
pub open spec fn spec_channel_deliveries<R: ChainRuntime>(m: NetModel, ci: int, remaining: nat) -> Seq<
    EnvModel,
>
    decreases remaining,
{
    if remaining == 0 || !(0 <= ci < m.channels.len()) || m.channels[ci].queue.len() == 0 {
        Seq::empty()
    } else {
        let env = m.channels[ci].queue[0];
        let d = spec_deliver_one::<R>(m, ci);
        match d.halt {
            Some(_) => seq![env],
            None => seq![env] + spec_channel_deliveries::<R>(d.net, ci, (remaining - 1) as nat),
        }
    }
}

/// The envelopes a whole routing phase hands to `deliver_inbound`, from
/// channel `ci` on.
pub open spec fn spec_round_deliveries<R: ChainRuntime>(m: NetModel, lens: Seq<int>, ci: int) -> Seq<
    EnvModel,
>
    decreases lens.len() - ci,
{
    if ci < 0 || ci >= lens.len() {
        Seq::empty()
    } else {
        let rem = (if lens[ci] >= 0 {
            lens[ci]
        } else {
            0
        }) as nat;
        let ds = spec_channel_deliveries::<R>(m, ci, rem);
        let c = spec_route_channel::<R>(m, ci, rem);
        match c.halt {
            Some(_) => ds,
            None => ds + spec_round_deliveries::<R>(c.net, lens, ci + 1),
        }
    }
}

/// The envelopes one whole scheduler round hands to `deliver_inbound`.
pub open spec fn spec_advance_deliveries<R: ChainRuntime>(
    m: NetModel,
    sub: Option<SubmissionModel>,
) -> Seq<EnvModel> {
    let r = (m.round + 1) as u64;
    let e = spec_exec_phase::<R>(spec_round_start::<R>(m, r), sub);
    match e.err {
        Some(_) => Seq::empty(),
        None => spec_round_deliveries::<R>(e.net, spec_lens(e.net), 0),
    }
}

proof fn lemma_channel_deliveries_bound<R: ChainRuntime>(m: NetModel, ci: int, remaining: nat)
    requires
        net_wf(m),
    ensures
        forall|i: int|
            0 <= i < spec_channel_deliveries::<R>(m, ci, remaining).len() ==> (
            #[trigger] spec_channel_deliveries::<R>(m, ci, remaining)[i]).round <= m.round,
    decreases remaining,
{
    if !(remaining == 0 || !(0 <= ci < m.channels.len()) || m.channels[ci].queue.len() == 0) {
        let d = spec_deliver_one::<R>(m, ci);
        lemma_deliver_one_wf::<R>(m, ci);
        match d.halt {
            Some(_) => {},
            None => {
                lemma_channel_deliveries_bound::<R>(d.net, ci, (remaining - 1) as nat);
            },
        }
    }
}

proof fn lemma_round_deliveries_bound<R: ChainRuntime>(m: NetModel, lens: Seq<int>, ci: int)
    requires
        net_wf(m),
    ensures
        forall|i: int|
            0 <= i < spec_round_deliveries::<R>(m, lens, ci).len() ==> (
            #[trigger] spec_round_deliveries::<R>(m, lens, ci)[i]).round <= m.round,
    decreases lens.len() - ci,
{
    if !(ci < 0 || ci >= lens.len()) {
        let rem = (if lens[ci] >= 0 {
            lens[ci]
        } else {
            0
        }) as nat;
        lemma_channel_deliveries_bound::<R>(m, ci, rem);
        let c = spec_route_channel::<R>(m, ci, rem);
        lemma_route_channel_wf::<R>(m, ci, rem);
        match c.halt {
            Some(_) => {},
            None => {
                lemma_round_deliveries_bound::<R>(c.net, lens, ci + 1);
            },
        }
    }
}

/// Round-delay law, over a whole round: every envelope that round
/// N = `m.round + 1` hands to `deliver_inbound` was enqueued during
/// round N or earlier. Since the round counter only grows, an envelope
/// enqueued during round N's execution phase can never appear in a
/// delivery of an earlier round.
pub proof fn lemma_round_delay_advance<R: ChainRuntime>(m: NetModel, sub: Option<SubmissionModel>)
    requires
        net_wf(m),
        m.round < u64::MAX,
    ensures
        forall|i: int|
            0 <= i < spec_advance_deliveries::<R>(m, sub).len() ==> (
            #[trigger] spec_advance_deliveries::<R>(m, sub)[i]).round <= m.round + 1,
{
    let r = (m.round + 1) as u64;
    lemma_round_start_wf::<R>(m, r);
    let m1 = spec_round_start::<R>(m, r);
    lemma_exec_phase_wf::<R>(m1, sub);
    let e = spec_exec_phase::<R>(m1, sub);
    match e.err {
        Some(_) => {},
        None => {
            lemma_round_deliveries_bound::<R>(e.net, spec_lens(e.net), 0);
        },
    }
}

/// No-loss law: in a well-formed network each channel accounts for
/// every envelope ever enqueued on it as either drained or still
/// queued; once a scenario ends quiescent, the number drained equals
/// the number enqueued on every channel — nothing was lost.
pub proof fn lemma_no_loss(m: NetModel)
    requires
        net_wf(m),
    ensures
        forall|ci: int|
            0 <= ci < m.channels.len() ==> (#[trigger] m.channels[ci]).drained + m.channels[
            ci].queue.len() == m.channels[ci].next_sequence,
        spec_quiescent(m) ==> forall|ci: int|
            0 <= ci < m.channels.len() ==> (#[trigger] m.channels[ci]).drained == m.channels[
            ci].next_sequence,
{
}

impl<R: ChainRuntime> Network<R> {
    /// Delivers the head envelope of channel `ci` exactly as
    /// `spec_deliver_one` describes.
    fn deliver_head(&mut self, ci: usize) -> (halt: Option<RoutingError>)
        requires
            ci < old(self).channels@.len(),
            old(self)@.channels[ci as int].queue.len() > 0,
            channel_wf(old(self)@.channels[ci as int]),
        ensures
            final(self)@ == spec_deliver_one::<R>(old(self)@, ci as int).net,
            halt == spec_deliver_one::<R>(old(self)@, ci as int).halt,
    {
        let ghost m0 = self@;
        let ghost env = m0.channels[ci as int].queue[0];
        let round = self.round;
        let recipient = self.channels[ci].queue[0].recipient;
        proof {
            assert(channels_view(self.channels@)[ci as int] == self.channels@[ci as int]@);
            assert(envs_view(self.channels@[ci as int].queue@)[0] == self.channels@[
                ci as int
            ].queue@[0]@);
            assert(recipient == env.recipient);
        }
        let ni = match find_node(&self.nodes, recipient) {
            Some(ni) => ni,
            None => {
                return Some(
                    RoutingError::Delivery { chain: recipient, reason: REASON_UNKNOWN_CHAIN },
                );
            },
        };
        let ghost st = R::deliver_model(m0.nodes[ni as int].state, env, round);
        let ghost node2 = NodeModel {
            state: st.state,
            log: m0.nodes[ni as int].log + stamp_events(st.events, m0.nodes[ni as int].id, round),
            ..m0.nodes[ni as int]
        };
        let ghost m1 = NetModel { nodes: m0.nodes.update(ni as int, node2), ..m0 };
        proof {
            assert(self.channels@[ci as int].queue@[0]@ == env);
            assert(nodes_view(self.nodes@)[ni as int] == m0.nodes[ni as int]);
            assert(self.nodes@[ni as int]@ == m0.nodes[ni as int]);
        }
        let out = {
            let env_ref = &self.channels[ci].queue[0];
            let node = node_at(&mut self.nodes, ni);
            node.runtime.deliver_inbound(env_ref, round)
        };
        let StepOutput { result, events, outbound } = out;
        {
            let node = node_at(&mut self.nodes, ni);
            let id = node.id;
            append_events(&mut node.log, id, round, events);
        }
        proof {
            assert forall|j: int| 0 <= j < self.nodes@.len() implies nodes_view(self.nodes@)[j]
                == m1.nodes[j] by {
                assert(nodes_view(self.nodes@)[j] == self.nodes@[j]@);
                if j != ni {
                } else {
                    assert(self.nodes@[j]@ =~~= node2);
                }
            }
            assert(nodes_view(self.nodes@) =~~= m1.nodes);
            assert(self@ =~~= m1);
        }
        match result {
            Err(e) => {
                proof {
                    assert(!st.ok && e.reason == st.reason);
                }
                Some(RoutingError::Delivery { chain: recipient, reason: e.reason })
            },
            Ok(()) => {
                let ghost m2 = NetModel {
                    channels: m1.channels.update(
                        ci as int,
                        spec_drain(m1.channels[ci as int], 1).channel,
                    ),
                    ..m1
                };
                {
                    let c = channel_at(&mut self.channels, ci);
                    let _ = c.drain_ready(1);
                }
                proof {
                    assert forall|j: int| 0 <= j < self.channels@.len() implies channels_view(
                        self.channels@,
                    )[j] == m2.channels[j] by {
                        assert(channels_view(self.channels@)[j] == self.channels@[j]@);
                    }
                    assert(channels_view(self.channels@) =~~= m2.channels);
                    assert(self@ =~~= m2);
                }
                let h = route_outbound_into(&mut self.channels, recipient, outbound, round);
                proof {
                    let d = spec_deliver_one::<R>(m0, ci as int);
                    assert(self@ =~~= d.net);
                    assert(h == d.halt);
                }
                h
            },
        }
    }
}

} // verus!
