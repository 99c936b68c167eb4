use chain_emulator::channel::{ChainId, ChannelError, ChannelKind, MessageChannel};

#[test]
fn fifo_order_and_sequences() {
    let mut ch = MessageChannel::new(ChannelKind::Horizontal, ChainId::Para(1), ChainId::Para(2));
    assert_eq!(ch.enqueue(vec![10], 1), Ok(0));
    assert_eq!(ch.enqueue(vec![20], 1), Ok(1));
    assert_eq!(ch.enqueue(vec![30], 2), Ok(2));
    let first = ch.drain_ready(2);
    assert_eq!(first.len(), 2);
    assert_eq!(first[0].payload, vec![10]);
    assert_eq!(first[0].sequence, 0);
    assert_eq!(first[1].payload, vec![20]);
    assert_eq!(first[1].sequence, 1);
    let second = ch.drain_ready(5);
    assert_eq!(second.len(), 1);
    assert_eq!(second[0].payload, vec![30]);
    assert_eq!(second[0].sequence, 2);
    assert_eq!(second[0].round, 2);
    assert_eq!(ch.len(), 0);
}

#[test]
fn drain_on_empty_returns_nothing() {
    let mut ch = MessageChannel::new(ChannelKind::Upward, ChainId::Para(7), ChainId::Relay);
    let drained = ch.drain_ready(4);
    assert!(drained.is_empty());
    assert_eq!(ch.len(), 0);
}

#[test]
fn closed_channel_rejects_enqueue() {
    let mut ch = MessageChannel::new(ChannelKind::Downward, ChainId::Relay, ChainId::Para(3));
    ch.close();
    assert_eq!(ch.enqueue(vec![1, 2, 3], 0), Err(ChannelError::Closed));
    assert_eq!(ch.len(), 0);
}

#[test]
fn exhausted_sequence_space_reports_full() {
    let mut ch = MessageChannel {
        kind: ChannelKind::Horizontal,
        sender: ChainId::Para(1),
        recipient: ChainId::Para(2),
        closed: false,
        next_sequence: u64::MAX,
        drained: u64::MAX,
        queue: Vec::new(),
    };
    assert_eq!(ch.enqueue(vec![9], 0), Err(ChannelError::Full));
}

#[test]
fn counters_account_for_every_envelope() {
    let mut ch = MessageChannel::new(ChannelKind::Horizontal, ChainId::Para(5), ChainId::Para(6));
    for i in 0..4u8 {
        ch.enqueue(vec![i], 1).unwrap();
    }
    let _ = ch.drain_ready(3);
    assert_eq!(ch.next_sequence, 4);
    assert_eq!(ch.drained, 3);
    assert_eq!(ch.len(), 1);
    let _ = ch.drain_ready(1);
    assert_eq!(ch.drained, ch.next_sequence);
}
