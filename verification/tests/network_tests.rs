use chain_emulator::channel::{ChainId, ChannelError, ChannelKind};
use chain_emulator::event::{EventPattern, FieldCheck};
use chain_emulator::network::{
    Network, RoutingError, Submission, REASON_BAD_PAIR, REASON_DUP_PARA, REASON_UNKNOWN_CHAIN,
};
use chain_emulator::ping::{
    PingRuntime, PAYLOAD_PING, PAYLOAD_PONG, REASON_BAD_DEST, REASON_BAD_ORIGIN,
    REASON_UNEXPECTED_ENVELOPE, REASON_UNKNOWN_CALL, REASON_UNMATCHED_PONG, SEL_PING, TAG_PINGED,
    TAG_PING_SENT, TAG_PONGED, TAG_PONG_SENT,
};
use chain_emulator::runtime::{Call, Origin};

const PARA_A: u32 = 2_000;
const PARA_B: u32 = 2_001;

fn pattern(tag: u64, attr: u64) -> EventPattern {
    EventPattern { tag, checks: vec![FieldCheck { index: 0, expected: attr }] }
}

fn ping_submission(from: u32, to: u32) -> Submission {
    Submission {
        target: ChainId::Para(from),
        origin: Origin::Root,
        call: Call { selector: SEL_PING, arg: to as u64, payload: Vec::new() },
    }
}

fn two_para_network() -> Network<PingRuntime> {
    Network::new(
        PingRuntime::new(0),
        vec![(PARA_A, PingRuntime::new(PARA_A)), (PARA_B, PingRuntime::new(PARA_B))],
        vec![(PARA_A, PARA_B), (PARA_B, PARA_A)],
    )
    .unwrap()
}

// Ensure para A can ping para B
#[test]
fn ping_pong() {
    let mut net = two_para_network();

    // Send ping from para A to B
    let report = net.advance_round(Some(ping_submission(PARA_A, PARA_B)));
    assert!(matches!(report.call_result, Some(Ok(()))));
    assert!(net
        .assert_events(ChainId::Para(PARA_A), &vec![pattern(TAG_PING_SENT, PARA_B as u64)])
        .is_ok());
    let pings = net.nodes[1].runtime.pending_count();

    // Ensure para B pinged, pong sent back to A
    assert!(net
        .assert_events(
            ChainId::Para(PARA_B),
            &vec![pattern(TAG_PINGED, PARA_A as u64), pattern(TAG_PONG_SENT, PARA_A as u64)],
        )
        .is_ok());

    // Ensure para A ponged
    net.advance_round(None);
    assert!(net
        .assert_events(ChainId::Para(PARA_A), &vec![pattern(TAG_PONGED, PARA_B as u64)])
        .is_ok());

    // Ensure successful ping removed
    assert_eq!(net.nodes[1].runtime.pending_count(), pings - 1);
}

#[test]
fn identical_scenarios_yield_identical_logs() {
    let run = || {
        let mut net = two_para_network();
        net.run_scenario(vec![
            Some(ping_submission(PARA_A, PARA_B)),
            Some(ping_submission(PARA_B, PARA_A)),
            None,
            None,
        ]);
        net
    };
    let net1 = run();
    let net2 = run();
    assert_eq!(net1.nodes.len(), net2.nodes.len());
    for i in 0..net1.nodes.len() {
        assert_eq!(net1.nodes[i].log, net2.nodes[i].log);
        assert_eq!(net1.nodes[i].runtime.pending, net2.nodes[i].runtime.pending);
    }
    assert_eq!(net1.round, net2.round);
}

#[test]
fn envelopes_are_delivered_in_their_round_or_later() {
    let mut net = two_para_network();
    net.advance_round(Some(ping_submission(PARA_A, PARA_B)));
    // The ping was enqueued and delivered during round 1.
    let b_events = net.events_since(ChainId::Para(PARA_B)).unwrap();
    assert!(b_events.iter().any(|e| e.tag == TAG_PINGED && e.round == 1));
    // The pong was enqueued while routing round 1, so it is nowhere yet.
    let a_events = net.events_since(ChainId::Para(PARA_A)).unwrap();
    assert!(a_events.iter().all(|e| e.tag != TAG_PONGED));
    // It arrives in round 2, never earlier.
    net.advance_round(None);
    let a_events = net.events_since(ChainId::Para(PARA_A)).unwrap();
    assert!(a_events.iter().any(|e| e.tag == TAG_PONGED && e.round == 2));
}

#[test]
fn completed_scenario_loses_no_envelope() {
    let mut net = two_para_network();
    net.advance_round(Some(ping_submission(PARA_A, PARA_B)));
    net.advance_round(None);
    assert!(net.is_quiescent());
    for ch in &net.channels {
        assert_eq!(ch.drained, ch.next_sequence);
    }
    // Exactly one ping and one pong crossed the network.
    let total: u64 = net.channels.iter().map(|c| c.next_sequence).sum();
    assert_eq!(total, 2);
}

#[test]
fn submission_to_unknown_chain_is_rejected() {
    let mut net = two_para_network();
    let report = net.advance_round(Some(ping_submission(999, PARA_B)));
    match report.call_result {
        Some(Err(e)) => assert_eq!(e.reason, REASON_UNKNOWN_CHAIN),
        other => panic!("expected a rejected call, got {:?}", other),
    }
    assert!(report.routing.is_none());
}

#[test]
fn ping_requires_root_origin() {
    let mut net = two_para_network();
    let mut sub = ping_submission(PARA_A, PARA_B);
    sub.origin = Origin::Signed(42);
    let report = net.advance_round(Some(sub));
    match report.call_result {
        Some(Err(e)) => assert_eq!(e.reason, REASON_BAD_ORIGIN),
        other => panic!("expected a rejected call, got {:?}", other),
    }
    // The rejection left no trace: no events, no messages.
    assert!(net.events_since(ChainId::Para(PARA_A)).unwrap().is_empty());
    assert!(net.is_quiescent());
}

#[test]
fn unknown_selector_is_rejected() {
    let mut net = two_para_network();
    let mut sub = ping_submission(PARA_A, PARA_B);
    sub.call.selector = 77;
    let report = net.advance_round(Some(sub));
    match report.call_result {
        Some(Err(e)) => assert_eq!(e.reason, REASON_UNKNOWN_CALL),
        other => panic!("expected a rejected call, got {:?}", other),
    }
}

#[test]
fn ping_to_self_is_rejected() {
    let mut net = two_para_network();
    let report = net.advance_round(Some(ping_submission(PARA_A, PARA_A)));
    match report.call_result {
        Some(Err(e)) => assert_eq!(e.reason, REASON_BAD_DEST),
        other => panic!("expected a rejected call, got {:?}", other),
    }
}

#[test]
fn undeclared_route_halts_routing() {
    // No horizontal channels are declared, so the ping cannot be routed.
    let mut net = Network::new(
        PingRuntime::new(0),
        vec![(PARA_A, PingRuntime::new(PARA_A)), (PARA_B, PingRuntime::new(PARA_B))],
        Vec::new(),
    )
    .unwrap();
    let report = net.advance_round(Some(ping_submission(PARA_A, PARA_B)));
    assert!(matches!(report.call_result, Some(Ok(()))));
    match report.routing {
        Some(RoutingError::Channel { sender, recipient, kind, error }) => {
            assert_eq!(sender, ChainId::Para(PARA_A));
            assert_eq!(recipient, ChainId::Para(PARA_B));
            assert_eq!(kind, ChannelKind::Horizontal);
            assert_eq!(error, ChannelError::Closed);
        },
        other => panic!("expected a routing failure, got {:?}", other),
    }
}

#[test]
fn refused_delivery_leaves_the_envelope_for_retry() {
    let mut net = two_para_network();
    // Hand B a pong it never asked for.
    let ci = net
        .channels
        .iter()
        .position(|c| c.sender == ChainId::Para(PARA_A) && c.recipient == ChainId::Para(PARA_B))
        .unwrap();
    net.channels[ci].enqueue(vec![PAYLOAD_PONG], 0).unwrap();
    let report = net.advance_round(None);
    match report.routing {
        Some(RoutingError::Delivery { chain, reason }) => {
            assert_eq!(chain, ChainId::Para(PARA_B));
            assert_eq!(reason, REASON_UNMATCHED_PONG);
        },
        other => panic!("expected a delivery failure, got {:?}", other),
    }
    // The envelope is still queued, and no event was logged.
    assert_eq!(net.channels[ci].len(), 1);
    assert!(net.events_since(ChainId::Para(PARA_B)).unwrap().is_empty());
}

fn setup_reason(r: Result<Network<PingRuntime>, chain_emulator::network::SetupError>) -> u64 {
    match r {
        Err(e) => e.reason,
        Ok(_) => panic!("expected the setup to fail"),
    }
}

#[test]
fn each_pong_settles_exactly_one_pending_ping() {
    let mut net = two_para_network();
    net.advance_round(Some(ping_submission(PARA_A, PARA_B)));
    net.advance_round(Some(ping_submission(PARA_A, PARA_B)));
    // Both pings are out; the first pong has already come back.
    assert_eq!(net.nodes[1].runtime.pending_count(), 1);
    net.run_rounds(1);
    assert_eq!(net.nodes[1].runtime.pending_count(), 0);
    assert!(net.is_quiescent());
}

#[test]
fn unrecognised_payloads_are_refused() {
    let mut net = two_para_network();
    let ci = net
        .channels
        .iter()
        .position(|c| c.sender == ChainId::Para(PARA_A) && c.recipient == ChainId::Para(PARA_B))
        .unwrap();
    assert_ne!(99, PAYLOAD_PING);
    assert_ne!(99, PAYLOAD_PONG);
    net.channels[ci].enqueue(vec![99], 0).unwrap();
    let report = net.advance_round(None);
    match report.routing {
        Some(RoutingError::Delivery { chain, reason }) => {
            assert_eq!(chain, ChainId::Para(PARA_B));
            assert_eq!(reason, REASON_UNEXPECTED_ENVELOPE);
        },
        other => panic!("expected a delivery failure, got {:?}", other),
    }
}

#[test]
fn chained_reply_without_route_halts_after_delivery() {
    let mut net = two_para_network();
    // Ping the relay chain over the upward channel; its pong would need a
    // horizontal channel from the relay, which no topology declares.
    let ci = net
        .channels
        .iter()
        .position(|c| c.sender == ChainId::Para(PARA_A) && c.recipient == ChainId::Relay)
        .unwrap();
    net.channels[ci].enqueue(vec![PAYLOAD_PING], 0).unwrap();
    let report = net.advance_round(None);
    // The delivery itself succeeded: the envelope is consumed and logged.
    assert_eq!(net.channels[ci].len(), 0);
    assert!(net
        .assert_events(
            ChainId::Relay,
            &vec![pattern(TAG_PINGED, PARA_A as u64), pattern(TAG_PONG_SENT, PARA_A as u64)],
        )
        .is_ok());
    // Routing the chained pong halted on the undeclared route.
    match report.routing {
        Some(RoutingError::Channel { sender, recipient, kind, error }) => {
            assert_eq!(sender, ChainId::Relay);
            assert_eq!(recipient, ChainId::Para(PARA_A));
            assert_eq!(kind, ChannelKind::Horizontal);
            assert_eq!(error, ChannelError::Closed);
        },
        other => panic!("expected a routing failure, got {:?}", other),
    }
}

#[test]
fn duplicate_para_id_fails_setup() {
    let r = Network::new(
        PingRuntime::new(0),
        vec![(PARA_A, PingRuntime::new(PARA_A)), (PARA_A, PingRuntime::new(PARA_A))],
        Vec::new(),
    );
    assert_eq!(setup_reason(r), REASON_DUP_PARA);
}

#[test]
fn malformed_channel_declarations_fail_setup() {
    let reflexive = Network::new(
        PingRuntime::new(0),
        vec![(PARA_A, PingRuntime::new(PARA_A))],
        vec![(PARA_A, PARA_A)],
    );
    assert_eq!(setup_reason(reflexive), REASON_BAD_PAIR);
    let undeclared = Network::new(
        PingRuntime::new(0),
        vec![(PARA_A, PingRuntime::new(PARA_A))],
        vec![(PARA_A, PARA_B)],
    );
    assert_eq!(setup_reason(undeclared), REASON_BAD_PAIR);
    let duplicated = Network::new(
        PingRuntime::new(0),
        vec![(PARA_A, PingRuntime::new(PARA_A)), (PARA_B, PingRuntime::new(PARA_B))],
        vec![(PARA_A, PARA_B), (PARA_A, PARA_B)],
    );
    assert_eq!(setup_reason(duplicated), REASON_BAD_PAIR);
}

#[test]
fn checkpoint_separates_event_captures() {
    let mut net = two_para_network();
    net.advance_round(Some(ping_submission(PARA_A, PARA_B)));
    assert_eq!(net.events_since(ChainId::Para(PARA_A)).unwrap().len(), 1);
    assert!(net.checkpoint(ChainId::Para(PARA_A)));
    assert!(net.events_since(ChainId::Para(PARA_A)).unwrap().is_empty());
    net.advance_round(None);
    let fresh = net.events_since(ChainId::Para(PARA_A)).unwrap();
    assert_eq!(fresh.len(), 1);
    assert_eq!(fresh[0].tag, TAG_PONGED);
    // Matching is read-only: it never moves the cursor.
    assert!(net
        .assert_events(ChainId::Para(PARA_A), &vec![pattern(TAG_PONGED, PARA_B as u64)])
        .is_ok());
    assert_eq!(net.events_since(ChainId::Para(PARA_A)).unwrap().len(), 1);
    assert!(!net.checkpoint(ChainId::Para(999)));
}

#[test]
fn unknown_chain_assertion_fails_on_first_pattern() {
    let net = two_para_network();
    let failure = net
        .assert_events(ChainId::Para(999), &vec![pattern(TAG_PINGED, 0)])
        .unwrap_err();
    assert_eq!(failure.expected_pattern_index, 0);
    assert!(failure.observed.is_empty());
}
