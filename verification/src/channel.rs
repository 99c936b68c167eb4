//! Typed, directional, strictly FIFO message channels between two chain
//! endpoints, together with their mathematical model and the channel laws
//! (FIFO order, conservation of envelopes).

use vstd::prelude::*;

verus! {

/// Identity of one chain in the emulated network: the single relay chain,
/// or a secondary chain carrying its numeric parachain id. Ids are unique
/// within a network.
#[derive(Clone, Copy, PartialEq, Eq, Structural, Debug)]
pub enum ChainId {
    Relay,
    Para(u32),
}

/// Direction class of a channel: relay to secondary, secondary to relay,
/// or secondary to secondary.
#[derive(Clone, Copy, PartialEq, Eq, Structural, Debug)]
pub enum ChannelKind {
    Downward,
    Upward,
    Horizontal,
}

/// Why an enqueue was refused: the channel's endpoints were torn down, or
/// its sequence space is exhausted (the model is otherwise unbounded).
#[derive(Clone, Copy, PartialEq, Eq, Structural, Debug)]
pub enum ChannelError {
    Closed,
    Full,
}

/// One unit of cross-chain payload with its routing metadata. `sequence`
/// is assigned by the channel at enqueue time and is strictly increasing
/// per channel; `round` records the scheduler round of the enqueue.
pub struct MessageEnvelope {
    pub kind: ChannelKind,
    pub sender: ChainId,
    pub recipient: ChainId,
    pub sequence: u64,
    pub round: u64,
    pub payload: Vec<u8>,
}

/// Mathematical model of an envelope.
#[verifier::ext_equal]
pub ghost struct EnvModel {
    pub kind: ChannelKind,
    pub sender: ChainId,
    pub recipient: ChainId,
    pub sequence: u64,
    pub round: u64,
    pub payload: Seq<u8>,
}

impl View for MessageEnvelope {
    type V = EnvModel;

    open spec fn view(&self) -> EnvModel {
        EnvModel {
            kind: self.kind,
            sender: self.sender,
            recipient: self.recipient,
            sequence: self.sequence,
            round: self.round,
            payload: self.payload@,
        }
    }
}

pub open spec fn envs_view(s: Seq<MessageEnvelope>) -> Seq<EnvModel> {
    s.map_values(|e: MessageEnvelope| e@)
}

/// An ordered queue of envelopes from `sender` to `recipient`. Entries
/// enter only at the tail (`enqueue`) and leave only at the head
/// (`drain_ready`), so the queue is strictly FIFO. `next_sequence` counts
/// every envelope ever enqueued; `drained` counts every envelope ever
/// drained.
pub struct MessageChannel {
    pub kind: ChannelKind,
    pub sender: ChainId,
    pub recipient: ChainId,
    pub closed: bool,
    pub next_sequence: u64,
    pub drained: u64,
    pub queue: Vec<MessageEnvelope>,
}

/// Mathematical model of a channel.
#[verifier::ext_equal]
pub ghost struct ChannelModel {
    pub kind: ChannelKind,
    pub sender: ChainId,
    pub recipient: ChainId,
    pub closed: bool,
    pub next_sequence: u64,
    pub drained: u64,
    pub queue: Seq<EnvModel>,
}

impl View for MessageChannel {
    type V = ChannelModel;

    open spec fn view(&self) -> ChannelModel {
        ChannelModel {
            kind: self.kind,
            sender: self.sender,
            recipient: self.recipient,
            closed: self.closed,
            next_sequence: self.next_sequence,
            drained: self.drained,
            queue: envs_view(self.queue@),
        }
    }
}

/// Well-formedness of a channel: the two endpoints differ, the counters
/// account for exactly the queued entries, and every queued envelope
/// carries the channel's own routing triple and a contiguous sequence
/// number starting at `drained`.
pub open spec fn channel_wf(c: ChannelModel) -> bool {
    &&& c.sender != c.recipient
    &&& c.next_sequence == c.drained + c.queue.len()
    &&& forall|i: int|
        0 <= i < c.queue.len() ==> {
            &&& (#[trigger] c.queue[i]).kind == c.kind
            &&& c.queue[i].sender == c.sender
            &&& c.queue[i].recipient == c.recipient
            &&& c.queue[i].sequence == c.drained + i
        }
}

/// Outcome of one enqueue at the model level.
#[verifier::ext_equal]
pub ghost struct EnqueueStep {
    pub channel: ChannelModel,
    pub result: Result<u64, ChannelError>,
}

/// What `enqueue` does: refuse a closed or exhausted channel unchanged,
/// otherwise append one envelope at the tail carrying the next sequence
/// number.
pub open spec fn spec_enqueue(c: ChannelModel, payload: Seq<u8>, round: u64) -> EnqueueStep {
    if c.closed {
        EnqueueStep { channel: c, result: Err(ChannelError::Closed) }
    } else if c.next_sequence == u64::MAX {
        EnqueueStep { channel: c, result: Err(ChannelError::Full) }
    } else {
        EnqueueStep {
            channel: ChannelModel {
                next_sequence: (c.next_sequence + 1) as u64,
                queue: c.queue.push(
                    EnvModel {
                        kind: c.kind,
                        sender: c.sender,
                        recipient: c.recipient,
                        sequence: c.next_sequence,
                        round,
                        payload,
                    },
                ),
                ..c
            },
            result: Ok(c.next_sequence),
        }
    }
}

/// Outcome of one drain at the model level.
#[verifier::ext_equal]
pub ghost struct DrainStep {
    pub channel: ChannelModel,
    pub envs: Seq<EnvModel>,
}

/// What `drain_ready` does: remove and return the first
/// `min(max_count, len)` entries, in queue order.
pub open spec fn spec_drain(c: ChannelModel, max_count: int) -> DrainStep {
    let k = if max_count < 0 {
        0
    } else if max_count <= c.queue.len() {
        max_count
    } else {
        c.queue.len() as int
    };
    DrainStep {
        channel: ChannelModel {
            drained: (c.drained + k) as u64,
            queue: c.queue.skip(k),
            ..c
        },
        envs: c.queue.take(k),
    }
}

impl MessageChannel {
    /// A fresh, open, empty channel between two distinct endpoints.
    pub fn new(kind: ChannelKind, sender: ChainId, recipient: ChainId) -> (c: MessageChannel)
        requires
            sender != recipient,
        ensures
            c@ == (ChannelModel {
                kind,
                sender,
                recipient,
                closed: false,
                next_sequence: 0,
                drained: 0,
                queue: Seq::<EnvModel>::empty(),
            }),
            channel_wf(c@),
    {
        let c = MessageChannel {
            kind,
            sender,
            recipient,
            closed: false,
            next_sequence: 0,
            drained: 0,
            queue: Vec::new(),
        };
        proof {
            assert(c@.queue =~= Seq::<EnvModel>::empty());
            assert(c@ =~= ChannelModel {
                kind,
                sender,
                recipient,
                closed: false,
                next_sequence: 0,
                drained: 0,
                queue: Seq::<EnvModel>::empty(),
            });
        }
        c
    }

    /// Appends one envelope at the tail, assigning the next sequence
    /// number; fails with `Closed` on a torn-down channel and with `Full`
    /// when the sequence space is exhausted, leaving the channel unchanged
    /// either way.
    pub fn enqueue(&mut self, payload: Vec<u8>, round: u64) -> (r: Result<u64, ChannelError>)
        ensures
            final(self)@ == spec_enqueue(old(self)@, payload@, round).channel,
            r == spec_enqueue(old(self)@, payload@, round).result,
    {
        if self.closed {
            Err(ChannelError::Closed)
        } else if self.next_sequence == u64::MAX {
            Err(ChannelError::Full)
        } else {
            let sequence = self.next_sequence;
            let env = MessageEnvelope {
                kind: self.kind,
                sender: self.sender,
                recipient: self.recipient,
                sequence,
                round,
                payload,
            };
            self.queue.push(env);
            self.next_sequence = self.next_sequence + 1;
            proof {
                assert(self@.queue =~= spec_enqueue(old(self)@, payload@, round).channel.queue);
                assert(self@ =~= spec_enqueue(old(self)@, payload@, round).channel);
            }
            Ok(sequence)
        }
    }

    /// Removes and returns up to `max_count` entries from the head, in
    /// FIFO order; this is the only way entries leave a channel.
    pub fn drain_ready(&mut self, max_count: usize) -> (envs: Vec<MessageEnvelope>)
        requires
            channel_wf(old(self)@),
        ensures
            final(self)@ == spec_drain(old(self)@, max_count as int).channel,
            envs_view(envs@) == spec_drain(old(self)@, max_count as int).envs,
            channel_wf(final(self)@),
    {
        let ghost c0 = self@;
        let ghost vec0 = self.queue@;
        let mut envs: Vec<MessageEnvelope> = Vec::new();
        let mut taken: usize = 0;
        let k = if max_count <= self.queue.len() {
            max_count
        } else {
            self.queue.len()
        };
        while taken < k
            invariant
                taken <= k,
                k <= vec0.len(),
                channel_wf(c0),
                c0.queue == envs_view(vec0),
                self.kind == c0.kind,
                self.sender == c0.sender,
                self.recipient == c0.recipient,
                self.closed == c0.closed,
                self.next_sequence == c0.next_sequence,
                c0.drained + vec0.len() <= u64::MAX,
                self.drained == c0.drained + taken,
                self.queue@ =~= vec0.skip(taken as int),
                envs@ =~= vec0.take(taken as int),
            decreases k - taken,
        {
            let env = self.queue.remove(0);
            envs.push(env);
            self.drained = self.drained + 1;
            taken = taken + 1;
            proof {
                assert(self.queue@ =~= vec0.skip(taken as int));
                assert(envs@ =~= vec0.take(taken as int));
            }
        }
        proof {
            let ki = k as int;
            assert forall|i: int| 0 <= i < self.queue@.len() implies self@.queue[i]
                == c0.queue.skip(ki)[i] by {
                assert(self.queue@[i] == vec0[ki + i]);
            }
            assert(self@.queue =~= c0.queue.skip(ki));
            assert(self@ =~= spec_drain(c0, max_count as int).channel);
            assert forall|i: int| 0 <= i < envs@.len() implies envs_view(envs@)[i]
                == c0.queue.take(ki)[i] by {
                assert(envs@[i] == vec0[i]);
            }
            assert(envs_view(envs@) =~= spec_drain(c0, max_count as int).envs);
        }
        envs
    }

    /// Marks the channel's endpoints as torn down; later enqueues fail
    /// with `Closed`.
    pub fn close(&mut self)
        ensures
            final(self)@ == (ChannelModel { closed: true, ..old(self)@ }),
    {
        self.closed = true;
        proof {
            assert(self@ =~= ChannelModel { closed: true, ..old(self)@ });
        }
    }

    /// Number of entries currently queued.
    pub fn len(&self) -> (n: usize)
        ensures
            n == self@.queue.len(),
    {
        self.queue.len()
    }
}

/// Enqueue and drain preserve well-formedness.
pub proof fn lemma_enqueue_wf(c: ChannelModel, payload: Seq<u8>, round: u64)
    requires
        channel_wf(c),
    ensures
        channel_wf(spec_enqueue(c, payload, round).channel),
{
}

pub proof fn lemma_drain_wf(c: ChannelModel, max_count: int)
    requires
        channel_wf(c),
    ensures
        channel_wf(spec_drain(c, max_count).channel),
{
    let d = spec_drain(c, max_count).channel;
    assert forall|i: int| 0 <= i < d.queue.len() implies {
        &&& (#[trigger] d.queue[i]).kind == d.kind
        &&& d.queue[i].sender == d.sender
        &&& d.queue[i].recipient == d.recipient
        &&& d.queue[i].sequence == d.drained + i
    } by {
        let k = c.queue.len() - d.queue.len();
        assert(d.queue[i] == c.queue[k + i]);
    }
}

/// The channel after enqueueing each payload of `payloads` in turn.
pub open spec fn spec_enqueue_all(c: ChannelModel, payloads: Seq<Seq<u8>>, round: u64) -> ChannelModel
    decreases payloads.len(),
{
    if payloads.len() == 0 {
        c
    } else {
        spec_enqueue_all(spec_enqueue(c, payloads[0], round).channel, payloads.skip(1), round)
    }
}

/// FIFO law: for every sequence of enqueue operations on an open,
/// well-formed channel, the entries stand behind the existing queue in
/// exactly the order enqueued, their sequence numbers are strictly
/// increasing, and a full drain returns the whole queue in that order.
pub proof fn lemma_channel_fifo(c: ChannelModel, payloads: Seq<Seq<u8>>, round: u64)
    requires
        channel_wf(c),
        !c.closed,
        c.next_sequence + payloads.len() <= u64::MAX,
    ensures
        ({
            let c2 = spec_enqueue_all(c, payloads, round);
            &&& channel_wf(c2)
            &&& !c2.closed
            &&& c2.queue.len() == c.queue.len() + payloads.len()
            &&& forall|i: int| 0 <= i < c.queue.len() ==> c2.queue[i] == c.queue[i]
            &&& forall|i: int|
                0 <= i < payloads.len() ==> (#[trigger] c2.queue[c.queue.len() + i]).payload
                    == payloads[i]
            &&& forall|i: int, j: int|
                0 <= i < j < c2.queue.len() ==> c2.queue[i].sequence < c2.queue[j].sequence
            &&& spec_drain(c2, c2.queue.len() as int).envs == c2.queue
        }),
    decreases payloads.len(),
{
    let c2 = spec_enqueue_all(c, payloads, round);
    if payloads.len() == 0 {
        assert(spec_drain(c2, c2.queue.len() as int).envs =~= c2.queue);
    } else {
        let c1 = spec_enqueue(c, payloads[0], round).channel;
        lemma_enqueue_wf(c, payloads[0], round);
        lemma_channel_fifo(c1, payloads.skip(1), round);
        assert forall|i: int| 0 <= i < payloads.len() implies (#[trigger] c2.queue[c.queue.len()
            + i]).payload == payloads[i] by {
            if i == 0 {
                assert(c2.queue[c.queue.len() as int] == c1.queue[c.queue.len() as int]);
            } else {
                assert(c2.queue[c1.queue.len() + (i - 1)].payload == payloads.skip(1)[i - 1]);
                assert(payloads.skip(1)[i - 1] == payloads[i]);
            }
        }
        assert(spec_drain(c2, c2.queue.len() as int).envs =~= c2.queue);
    }
}

/// Conservation law: a well-formed channel accounts for every envelope
/// ever enqueued (`next_sequence` of them, numbered from zero) as either
/// already drained or still queued; in particular an emptied channel has
/// drained exactly what was enqueued, so nothing is lost.
pub proof fn lemma_channel_no_loss(c: ChannelModel)
    requires
        channel_wf(c),
    ensures
        c.drained + c.queue.len() == c.next_sequence,
        c.queue.len() == 0 ==> c.drained == c.next_sequence,
{
}

} // verus!
