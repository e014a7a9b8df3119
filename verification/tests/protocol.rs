use netsync::chain::Chain;
use netsync::engine::{
    Action, BadReason, Protocol, ProtocolConfig, Severity, Transaction, CURRENT_VERSION,
    MAX_BLOCK_DATA_RESPONSE, REQUEST_WAIT,
};
use netsync::wire::{
    decode, encode, Block, BlockId, BlockRequest, BlockResponse, Message, MessageBody, Status,
};

fn chain_with_best(genesis_hash: u64, best: u64) -> Chain {
    let mut chain = Chain::new(genesis_hash);
    let mut extra: Vec<Block> = Vec::new();
    for n in 1..=best {
        extra.push(Block { number: n, hash: 1000 + n });
    }
    chain.import_blocks(extra);
    chain
}

fn node(genesis_hash: u64, best: u64) -> Protocol {
    Protocol::new(ProtocolConfig::default(), chain_with_best(genesis_hash, best))
}

fn status_bytes(version: u64, genesis_hash: u64, best_number: u64, best_hash: u64) -> Vec<u8> {
    encode(&Message::new(MessageBody::Status(Status {
        version,
        best_number,
        best_hash,
        genesis_hash,
    })))
}

#[test]
fn test_serialization() {
    let tx: Vec<u8> = vec![0, 0, 0, 0];
    let message = Message::new(MessageBody::Transaction(tx));
    let decoded = decode(&encode(&message)).unwrap();
    assert_eq!(message, decoded);
}

#[test]
fn test_on_transaction_message() {
    let protocol = node(7, 0);
    let tx: Vec<u8> = vec![0, 0, 0, 0];
    let action = protocol.on_transaction_message(&tx);
    assert_eq!(action, Action::HandleTransaction { payload: vec![0, 0, 0, 0] });
}

#[test]
fn round_trip_status() {
    let message = Message::new(MessageBody::Status(Status {
        version: 1,
        best_number: 50,
        best_hash: 9,
        genesis_hash: 3,
    }));
    assert_eq!(decode(&encode(&message)).unwrap(), message);
}

#[test]
fn round_trip_block_request_all_fields() {
    let message = Message::new(MessageBody::BlockRequest(BlockRequest {
        id: 4,
        from: BlockId::Hash(77),
        to: Some(BlockId::Number(90)),
        max: Some(12),
    }));
    assert_eq!(decode(&encode(&message)).unwrap(), message);
}

#[test]
fn round_trip_block_request_absent_to_and_max() {
    let message = Message::new(MessageBody::BlockRequest(BlockRequest {
        id: 0,
        from: BlockId::Number(10),
        to: None,
        max: None,
    }));
    assert_eq!(decode(&encode(&message)).unwrap(), message);
}

#[test]
fn round_trip_block_response_empty() {
    let message = Message::new(MessageBody::BlockResponse(BlockResponse {
        id: 2,
        blocks: vec![],
    }));
    assert_eq!(decode(&encode(&message)).unwrap(), message);
}

#[test]
fn round_trip_block_response_blocks() {
    let message = Message::new(MessageBody::BlockResponse(BlockResponse {
        id: 2,
        blocks: vec![Block { number: 11, hash: 1011 }, Block { number: 12, hash: 1012 }],
    }));
    assert_eq!(decode(&encode(&message)).unwrap(), message);
}

#[test]
fn round_trip_empty_transaction() {
    let message = Message::new(MessageBody::Transaction(vec![]));
    assert_eq!(decode(&encode(&message)).unwrap(), message);
}

#[test]
fn decode_rejects_garbage() {
    assert_eq!(decode(&[]), None);
    assert_eq!(decode(&[9, 1, 2]), None);
    assert_eq!(decode(&[0, 1, 2]), None);
    let mut truncated = encode(&Message::new(MessageBody::Status(Status {
        version: 1,
        best_number: 0,
        best_hash: 0,
        genesis_hash: 0,
    })));
    truncated.pop();
    assert_eq!(decode(&truncated), None);
}

#[test]
fn transaction_trait_bytes() {
    let tx: Vec<u8> = vec![5, 6];
    assert_eq!(tx.to_bytes(), vec![5, 6]);
}

#[test]
fn connect_announces_own_status() {
    let mut p = node(3, 10);
    let actions = p.on_peer_connected(42, 0);
    assert_eq!(actions.len(), 1);
    match &actions[0] {
        Action::Send { peer, message } => {
            assert_eq!(*peer, 42);
            assert_eq!(
                *message,
                Message::new(MessageBody::Status(Status {
                    version: CURRENT_VERSION,
                    best_number: 10,
                    best_hash: 1010,
                    genesis_hash: 3,
                }))
            );
        }
        other => panic!("expected a send, got {:?}", other),
    }
    assert!(p.handshaking_peers.get(42).is_some());
    assert!(p.peer_info.get(42).is_none());
}

#[test]
fn handshake_ahead_peer_awaits_blocks() {
    let mut p = node(3, 10);
    p.on_peer_connected(1, 0);
    let actions = p.on_message(1, &status_bytes(CURRENT_VERSION, 3, 50, 9), 5);
    // promoted: out of the handshake set, into the peer table
    assert!(p.handshaking_peers.get(1).is_none());
    let info = p.peer_info.get(1).expect("peer record");
    assert_eq!(info.best_number, 50);
    assert_eq!(info.best_hash, 9);
    assert_eq!(info.protocol_version, CURRENT_VERSION);
    assert_eq!(info.next_request_id, 1);
    assert_eq!(info.request_timestamp, Some(5));
    let request = info.block_request.expect("pending request");
    assert_eq!(request.id, 0);
    assert_eq!(request.from, BlockId::Number(10));
    assert_eq!(request.to, Some(BlockId::Number(50)));
    assert_eq!(request.max, None);
    assert_eq!(actions.len(), 1);
    match &actions[0] {
        Action::Send { peer, message } => {
            assert_eq!(*peer, 1);
            assert_eq!(*message, Message::new(MessageBody::BlockRequest(request)));
        }
        other => panic!("expected a send, got {:?}", other),
    }
}

#[test]
fn handshake_behind_peer_synchronized() {
    let mut p = node(3, 10);
    p.on_peer_connected(1, 0);
    let actions = p.on_message(1, &status_bytes(CURRENT_VERSION, 3, 4, 1004), 5);
    assert!(actions.is_empty());
    assert!(p.handshaking_peers.get(1).is_none());
    let info = p.peer_info.get(1).expect("peer record");
    assert_eq!(info.block_request, None);
    assert_eq!(info.request_timestamp, None);
    assert_eq!(info.next_request_id, 0);
}

#[test]
fn version_mismatch_reported_not_promoted() {
    let mut p = node(3, 10);
    p.on_peer_connected(1, 0);
    let actions = p.on_message(1, &status_bytes(2, 3, 50, 9), 5);
    assert_eq!(
        actions,
        vec![Action::Report { peer: 1, severity: Severity::Bad(BadReason::IncompatibleVersion) }]
    );
    assert!(p.peer_info.get(1).is_none());
    assert!(p.handshaking_peers.get(1).is_some());
}

#[test]
fn genesis_mismatch_reported_not_promoted() {
    let mut p = node(3, 10);
    p.on_peer_connected(1, 0);
    let actions = p.on_message(1, &status_bytes(CURRENT_VERSION, 4, 50, 9), 5);
    assert_eq!(
        actions,
        vec![Action::Report { peer: 1, severity: Severity::Bad(BadReason::GenesisMismatch) }]
    );
    assert!(p.peer_info.get(1).is_none());
}

#[test]
fn invalid_message_reported() {
    let mut p = node(3, 10);
    p.on_peer_connected(1, 0);
    let actions = p.on_message(1, &[250, 0, 1], 5);
    assert_eq!(
        actions,
        vec![Action::Report { peer: 1, severity: Severity::Bad(BadReason::InvalidMessageFormat) }]
    );
    assert!(p.handshaking_peers.get(1).is_some());
    assert!(p.peer_info.get(1).is_none());
}

fn served(p: &mut Protocol, request: BlockRequest) -> BlockResponse {
    let bytes = encode(&Message::new(MessageBody::BlockRequest(request)));
    let actions = p.on_message(9, &bytes, 0);
    assert_eq!(actions.len(), 1);
    match &actions[0] {
        Action::Send { peer, message } => {
            assert_eq!(*peer, 9);
            match &message.body {
                MessageBody::BlockResponse(resp) => resp.clone(),
                other => panic!("expected a block response, got {:?}", other),
            }
        }
        other => panic!("expected a send, got {:?}", other),
    }
}

#[test]
fn block_request_full_range_in_order() {
    let mut p = node(3, 10);
    let resp = served(
        &mut p,
        BlockRequest { id: 5, from: BlockId::Number(2), to: Some(BlockId::Number(6)), max: None },
    );
    assert_eq!(resp.id, 5);
    let numbers: Vec<u64> = resp.blocks.iter().map(|b| b.number).collect();
    assert_eq!(numbers, vec![2, 3, 4, 5, 6]);
}

#[test]
fn block_request_by_hash_start() {
    let mut p = node(3, 10);
    let resp = served(
        &mut p,
        BlockRequest { id: 0, from: BlockId::Hash(1004), to: Some(BlockId::Number(6)), max: None },
    );
    let numbers: Vec<u64> = resp.blocks.iter().map(|b| b.number).collect();
    assert_eq!(numbers, vec![4, 5, 6]);
}

#[test]
fn block_request_capped_by_max() {
    let mut p = node(3, 10);
    let resp = served(
        &mut p,
        BlockRequest {
            id: 1,
            from: BlockId::Number(0),
            to: Some(BlockId::Number(10)),
            max: Some(3),
        },
    );
    let numbers: Vec<u64> = resp.blocks.iter().map(|b| b.number).collect();
    assert_eq!(numbers, vec![0, 1, 2]);
}

#[test]
fn block_request_capped_by_hard_cap() {
    let mut p = node(3, 300);
    let resp = served(
        &mut p,
        BlockRequest { id: 1, from: BlockId::Number(0), to: None, max: None },
    );
    assert_eq!(resp.blocks.len() as u64, MAX_BLOCK_DATA_RESPONSE);
    let resp = served(
        &mut p,
        BlockRequest { id: 2, from: BlockId::Number(0), to: None, max: Some(100_000) },
    );
    assert_eq!(resp.blocks.len() as u64, MAX_BLOCK_DATA_RESPONSE);
}

#[test]
fn block_request_unknown_start_empty() {
    let mut p = node(3, 10);
    let resp = served(
        &mut p,
        BlockRequest { id: 8, from: BlockId::Number(11), to: None, max: None },
    );
    assert!(resp.blocks.is_empty());
}

fn response_bytes(id: u64, blocks: Vec<Block>) -> Vec<u8> {
    encode(&Message::new(MessageBody::BlockResponse(BlockResponse { id, blocks })))
}

fn catchup_blocks(from: u64, to: u64) -> Vec<Block> {
    (from..=to).map(|n| Block { number: n, hash: 1000 + n }).collect()
}

#[test]
fn mismatched_response_id_ignored_then_matched_succeeds() {
    let mut p = node(3, 10);
    p.on_peer_connected(1, 0);
    p.on_message(1, &status_bytes(CURRENT_VERSION, 3, 50, 9), 0);
    // stale id: silently ignored, the pending request stays outstanding
    let actions = p.on_message(1, &response_bytes(7, catchup_blocks(11, 50)), 1);
    assert!(actions.is_empty());
    assert!(p.peer_info.get(1).unwrap().block_request.is_some());
    assert_eq!(p.chain.blocks.len(), 11);
    // the correctly matched response still succeeds afterwards
    let actions = p.on_message(1, &response_bytes(0, catchup_blocks(11, 50)), 2);
    assert!(actions.is_empty());
    let info = p.peer_info.get(1).unwrap();
    assert_eq!(info.block_request, None);
    assert_eq!(info.request_timestamp, None);
    assert_eq!(p.chain.blocks.len(), 51);
    assert_eq!(p.chain.blocks[50].number, 50);
}

#[test]
fn unsolicited_response_reported_no_import() {
    let mut p = node(3, 10);
    let actions = p.on_message(2, &response_bytes(0, catchup_blocks(11, 12)), 1);
    assert_eq!(
        actions,
        vec![Action::Report { peer: 2, severity: Severity::Bad(BadReason::UnexpectedResponse) }]
    );
    assert_eq!(p.chain.blocks.len(), 11);
    // a synchronized peer with no pending request is reported too
    let mut p = node(3, 10);
    p.on_peer_connected(1, 0);
    p.on_message(1, &status_bytes(CURRENT_VERSION, 3, 4, 1004), 0);
    let actions = p.on_message(1, &response_bytes(0, catchup_blocks(11, 12)), 1);
    assert_eq!(
        actions,
        vec![Action::Report { peer: 1, severity: Severity::Bad(BadReason::UnexpectedResponse) }]
    );
    assert_eq!(p.chain.blocks.len(), 11);
}

fn pool(p: &mut Protocol, peers: &[u64]) {
    for (k, peer) in peers.iter().enumerate() {
        p.on_peer_connected(*peer, 0);
        let best = 1 + k as u64;
        p.on_message(*peer, &status_bytes(CURRENT_VERSION, 3, best, 1000 + best), 0);
    }
}

#[test]
fn sampling_full_sample_distinct() {
    let mut p = node(3, 10);
    pool(&mut p, &[10, 20, 30, 40, 50]);
    for _ in 0..20 {
        let sample = p.sample_peers(3).expect("enough peers");
        assert_eq!(sample.len(), 3);
        for i in 0..sample.len() {
            assert!([10, 20, 30, 40, 50].contains(&sample[i]));
            for j in 0..i {
                assert_ne!(sample[i], sample[j]);
            }
        }
    }
}

#[test]
fn sampling_shortfall_returns_everyone() {
    let mut p = node(3, 10);
    pool(&mut p, &[10, 20, 30]);
    let mut everyone = p.sample_peers(5).expect_err("shortfall");
    everyone.sort();
    assert_eq!(everyone, vec![10, 20, 30]);
    let none = p.sample_peers(0).expect("empty sample is a full sample");
    assert!(none.is_empty());
}

#[test]
fn sampling_ignores_handshaking_peers() {
    let mut p = node(3, 10);
    pool(&mut p, &[10]);
    p.on_peer_connected(99, 0);
    let mut everyone = p.sample_peers(2).expect_err("only one validated peer");
    everyone.sort();
    assert_eq!(everyone, vec![10]);
}

#[test]
fn stale_handshake_flagged_once() {
    let mut p = node(3, 10);
    p.on_peer_connected(1, 0);
    let actions = p.maintain_peers(REQUEST_WAIT + 1);
    assert_eq!(actions, vec![Action::Report { peer: 1, severity: Severity::Timeout }]);
}

#[test]
fn fresh_handshake_not_flagged() {
    let mut p = node(3, 10);
    p.on_peer_connected(1, 0);
    assert!(p.maintain_peers(REQUEST_WAIT).is_empty());
}

#[test]
fn stale_request_flagged_fresh_not() {
    let mut p = node(3, 10);
    p.on_peer_connected(1, 0);
    p.on_message(1, &status_bytes(CURRENT_VERSION, 3, 50, 9), 10);
    // the peer answered its handshake; only the block request can go stale
    assert!(p.maintain_peers(10 + REQUEST_WAIT).is_empty());
    let actions = p.maintain_peers(10 + REQUEST_WAIT + 1);
    assert_eq!(actions, vec![Action::Report { peer: 1, severity: Severity::Timeout }]);
    // a synchronized peer with nothing outstanding is never flagged
    let mut q = node(3, 10);
    q.on_peer_connected(2, 0);
    q.on_message(2, &status_bytes(CURRENT_VERSION, 3, 4, 1004), 0);
    assert!(q.maintain_peers(1_000_000).is_empty());
}

#[test]
fn disconnect_removes_and_is_idempotent() {
    let mut p = node(3, 10);
    p.on_peer_connected(1, 0);
    p.on_message(1, &status_bytes(CURRENT_VERSION, 3, 50, 9), 0);
    p.on_peer_disconnected(1);
    assert!(p.peer_info.get(1).is_none());
    assert!(p.handshaking_peers.get(1).is_none());
    p.on_peer_disconnected(1);
    assert!(p.peer_info.get(1).is_none());
    // a timed-out peer that was evicted is no longer flagged
    assert!(p.maintain_peers(1_000_000).is_empty());
}

#[test]
fn config_keeps_protocol_id() {
    let config = ProtocolConfig::new([1, 2, 3]);
    assert_eq!(config.protocol_id, [1, 2, 3]);
    assert_eq!(ProtocolConfig::default().protocol_id, [0, 0, 0]);
}

#[test]
fn send_message_queues_action() {
    let p = node(3, 0);
    let mut actions: Vec<Action> = Vec::new();
    let message = Message::new(MessageBody::Transaction(vec![1]));
    p.send_message(&mut actions, 4, message.clone());
    assert_eq!(actions, vec![Action::Send { peer: 4, message }]);
}

#[test]
fn chain_lookup_by_number_and_hash() {
    let chain = chain_with_best(3, 5);
    assert_eq!(chain.genesis_hash(), 3);
    assert_eq!(chain.best_number(), 5);
    assert_eq!(chain.best_hash(), 1005);
    assert_eq!(chain.get_block(&BlockId::Number(2)), Some(Block { number: 2, hash: 1002 }));
    assert_eq!(chain.get_block(&BlockId::Number(6)), None);
    assert_eq!(chain.get_block(&BlockId::Hash(1004)), Some(Block { number: 4, hash: 1004 }));
    assert_eq!(chain.get_block(&BlockId::Hash(77)), None);
}

#[test]
fn import_ignores_blocks_that_do_not_extend() {
    let mut chain = chain_with_best(3, 2);
    chain.import_blocks(vec![
        Block { number: 7, hash: 1007 },
        Block { number: 3, hash: 1003 },
        Block { number: 3, hash: 999 },
    ]);
    assert_eq!(chain.best_number(), 3);
    assert_eq!(chain.best_hash(), 1003);
}

#[test]
fn block_request_zero_max_served_nothing() {
    let mut p = node(3, 10);
    let resp = served(
        &mut p,
        BlockRequest { id: 3, from: BlockId::Number(0), to: None, max: Some(0) },
    );
    assert_eq!(resp.id, 3);
    assert!(resp.blocks.is_empty());
}

#[test]
fn block_request_range_ending_at_hash() {
    let mut p = node(3, 10);
    let resp = served(
        &mut p,
        BlockRequest { id: 6, from: BlockId::Number(2), to: Some(BlockId::Hash(1005)), max: None },
    );
    let numbers: Vec<u64> = resp.blocks.iter().map(|b| b.number).collect();
    assert_eq!(numbers, vec![2, 3, 4, 5]);
}

#[test]
fn decode_rejects_wrong_envelope_version() {
    let mut bytes = encode(&Message::new(MessageBody::Status(Status {
        version: 1,
        best_number: 0,
        best_hash: 0,
        genesis_hash: 0,
    })));
    bytes[0] = bytes[0].wrapping_add(1);
    assert_eq!(decode(&bytes), None);
}
