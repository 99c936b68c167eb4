//! The capability interface a concrete chain runtime must satisfy: apply
//! per-round bookkeeping, execute one call, and process one inbound
//! envelope, each fully determined (at the model level) by the runtime's
//! abstract state and the input. The network and the scheduler are
//! written against this interface alone.

use vstd::prelude::*;
use crate::channel::{ChainId, ChannelKind, EnvModel, MessageEnvelope};
use crate::event::{Event, EventModel, events_view};

verus! {

/// Rejection of a submitted call by a chain's runtime; the state is left
/// unchanged (atomicity is the runtime's contract).
#[derive(Clone, Copy, PartialEq, Eq, Structural, Debug)]
pub struct CallError {
    pub reason: u64,
}

/// The authority a call is executed under: administrative root, or a
/// plain numeric account.
#[derive(Clone, Copy, PartialEq, Eq, Structural, Debug)]
pub enum Origin {
    Root,
    Signed(u64),
}

/// One call against a chain, opaque to the engine: a numeric selector, a
/// numeric argument and a free-form payload, interpreted by the target
/// chain's runtime alone.
pub struct Call {
    pub selector: u64,
    pub arg: u64,
    pub payload: Vec<u8>,
}

/// Mathematical model of a call.
#[verifier::ext_equal]
pub ghost struct CallModel {
    pub selector: u64,
    pub arg: u64,
    pub payload: Seq<u8>,
}

impl View for Call {
    type V = CallModel;

    open spec fn view(&self) -> CallModel {
        CallModel { selector: self.selector, arg: self.arg, payload: self.payload@ }
    }
}

/// An envelope a runtime wants sent: the channel kind, the recipient and
/// the payload; the network picks the channel and assigns the sequence
/// number.
pub struct OutboundMessage {
    pub kind: ChannelKind,
    pub recipient: ChainId,
    pub payload: Vec<u8>,
}

/// Mathematical model of an outbound request.
#[verifier::ext_equal]
pub ghost struct OutboundModel {
    pub kind: ChannelKind,
    pub recipient: ChainId,
    pub payload: Seq<u8>,
}

impl View for OutboundMessage {
    type V = OutboundModel;

    open spec fn view(&self) -> OutboundModel {
        OutboundModel { kind: self.kind, recipient: self.recipient, payload: self.payload@ }
    }
}

pub open spec fn outbound_view(s: Seq<OutboundMessage>) -> Seq<OutboundModel> {
    s.map_values(|o: OutboundMessage| o@)
}

/// What one runtime step (a call execution or an inbound delivery)
/// produced: acceptance or a rejection, the events emitted, and the
/// outbound envelopes requested, in order.
pub struct StepOutput {
    pub result: Result<(), CallError>,
    pub events: Vec<Event>,
    pub outbound: Vec<OutboundMessage>,
}

/// Mathematical model of one runtime step: the outcome, the successor
/// abstract state, and the emitted events and outbound requests.
#[verifier::ext_equal]
pub ghost struct RtStep {
    pub ok: bool,
    pub reason: u64,
    pub state: Seq<u64>,
    pub events: Seq<EventModel>,
    pub outbound: Seq<OutboundModel>,
}

/// Whether an executable step output agrees with a model step.
pub open spec fn step_output_matches(out: StepOutput, m: RtStep) -> bool {
    &&& (out.result is Ok) == m.ok
    &&& (out.result matches Err(e) ==> e.reason == m.reason)
    &&& events_view(out.events@) == m.events
    &&& outbound_view(out.outbound@) == m.outbound
}

/// A step output that rejects with `reason` and emits nothing.
pub fn fail_output(reason: u64) -> (out: StepOutput)
    ensures
        out.result == Err::<(), CallError>(CallError { reason }),
        events_view(out.events@) == Seq::<EventModel>::empty(),
        outbound_view(out.outbound@) == Seq::<OutboundModel>::empty(),
{
    let out = StepOutput {
        result: Err(CallError { reason }),
        events: Vec::new(),
        outbound: Vec::new(),
    };
    proof {
        assert(events_view(out.events@) =~= Seq::<EventModel>::empty());
        assert(outbound_view(out.outbound@) =~= Seq::<OutboundModel>::empty());
    }
    out
}

/// A single chain's runtime, abstracted: an abstract state (a sequence of
/// plain values) and three deterministic transition functions over it.
/// Every executable operation is pinned, by its contract, to the
/// corresponding model function of the state and the input alone; that is
/// what makes whole-network rounds deterministic.
pub trait ChainRuntime: Sized {
    /// The runtime's abstract state.
    spec fn state_model(&self) -> Seq<u64>;

    /// Model of per-round bookkeeping, run once at the start of every
    /// round before any call execution.
    spec fn start_model(state: Seq<u64>, round: u64) -> Seq<u64>;

    /// Model of executing one call.
    spec fn execute_model(state: Seq<u64>, call: CallModel, origin: Origin, round: u64) -> RtStep;

    /// Model of processing one inbound envelope.
    spec fn deliver_model(state: Seq<u64>, env: EnvModel, round: u64) -> RtStep;

    /// A rejected call leaves the state unchanged and emits nothing.
    proof fn lemma_execute_atomic(state: Seq<u64>, call: CallModel, origin: Origin, round: u64)
        ensures
            ({
                let m = Self::execute_model(state, call, origin, round);
                !m.ok ==> m.state == state && m.events.len() == 0 && m.outbound.len() == 0
            }),
    ;

    /// A refused delivery leaves the state unchanged and emits nothing,
    /// so the envelope can be retried.
    proof fn lemma_deliver_atomic(state: Seq<u64>, env: EnvModel, round: u64)
        ensures
            ({
                let m = Self::deliver_model(state, env, round);
                !m.ok ==> m.state == state && m.events.len() == 0 && m.outbound.len() == 0
            }),
    ;

    /// Per-round bookkeeping (the analogue of block initialization).
    fn on_round_start(&mut self, round: u64)
        ensures
            final(self).state_model() == Self::start_model(old(self).state_model(), round),
    ;

    /// Executes one call against the current state.
    fn execute(&mut self, call: &Call, origin: Origin, round: u64) -> (out: StepOutput)
        ensures
            ({
                let m = Self::execute_model(old(self).state_model(), call@, origin, round);
                &&& final(self).state_model() == m.state
                &&& step_output_matches(out, m)
            }),
    ;

    /// Processes one inbound envelope; the scheduler hands a round's
    /// envelopes over one by one, in FIFO order.
    fn deliver_inbound(&mut self, env: &MessageEnvelope, round: u64) -> (out: StepOutput)
        ensures
            ({
                let m = Self::deliver_model(old(self).state_model(), env@, round);
                &&& final(self).state_model() == m.state
                &&& step_output_matches(out, m)
            }),
    ;
}

} // verus!
