//! The authenticated message protocol between two nodes.

use minichain::signature::new_pair;
use minichain::keyvalue::{open_temporary, insert};
use minichain::storekeys::key_secret_bytes;
use minichain::block::{NodeState, LocalBlock, MEMPOOL_THRESHOLD};
use minichain::transactions::Transaction;
use minichain::messages::{Message, MessageData, Packet, handle_incoming, decode_message};
use minichain::responses::{Response, ResponseData, decode_response};
use minichain::errors::NodeError;

fn fresh_node(assembler: bool) -> NodeState {
    let mut db = open_temporary().unwrap();
    let (sk, _pk) = new_pair();
    let key = key_secret_bytes();
    insert(&mut db, &key, &sk).unwrap();
    NodeState::new(db, assembler)
}

fn signer_db() -> sled::Db {
    let mut db = open_temporary().unwrap();
    let (sk, _pk) = new_pair();
    let key = key_secret_bytes();
    insert(&mut db, &key, &sk).unwrap();
    db
}

const ADDR_A: &[u8] = b"127.0.0.1:9001";
const ADDR_B: &[u8] = b"127.0.0.1:9002";

/// Performs the handshake from `a` (at `addr_a`) to `b` (at `addr_b`), and
/// feeds the handshake-ack back to `a`.
fn handshake(a: &mut NodeState, addr_a: &[u8], b: &mut NodeState, addr_b: &[u8]) {
    let hello = Message::generate(1, a).unwrap();
    let bytes = Packet::Message(hello).to_bytes();
    let outcome = handle_incoming(&bytes, addr_a, b).unwrap();
    let reply = outcome.reply.expect("a handshake is answered");
    let back = handle_incoming(&reply, addr_b, a).unwrap();
    assert!(back.reply.is_none());
}

#[test]
fn two_peers_handshake() {
    // after a handshake each registry holds the other peer: the passive
    // side records the initiator as a non-validator, the initiator records
    // the responder (from the handshake-ack) as a validator
    let mut a = fresh_node(false);
    let mut b = fresh_node(false);
    handshake(&mut a, ADDR_A, &mut b, ADDR_B);
    let a_entry = b.neighbors_get(ADDR_A).unwrap().expect("the responder registers the caller");
    assert_eq!(a_entry.pk.len(), 33);
    assert!(!a_entry.is_validator);
    let b_entry = a.neighbors_get(ADDR_B).unwrap().expect("the caller registers the responder");
    assert_eq!(b_entry.pk.len(), 33);
    assert!(b_entry.is_validator);
    // the registered keys are the peers' own public keys
    let hello_again = Message::generate(1, &b).unwrap();
    match hello_again.data {
        MessageData::MessageType1(d) => assert_eq!(d.public_key, b_entry.pk),
        _ => panic!("a type-1 message carries a handshake payload"),
    }
}

#[test]
fn unknown_peer_rejected_except_handshake() {
    let a = fresh_node(false);
    let mut b = fresh_node(false);
    // a non-handshake message from an unregistered peer is rejected
    let sync = Message::generate(5, &a).unwrap();
    let bytes = Packet::Message(sync).to_bytes();
    match handle_incoming(&bytes, ADDR_A, &mut b) {
        Ok(outcome) => {
            // the engine answers with an error response rather than acting
            let reply = outcome.reply.expect("rejections are answered");
            let (resp, _) = decode_response(&reply, 1).unwrap();
            match resp.data {
                ResponseData::ErrorResponse => {},
                _ => panic!("an unknown peer's request is answered with the error code"),
            }
        },
        Err(_) => panic!("the engine must answer, not fail"),
    }
    assert!(b.neighbors_get(ADDR_A).unwrap().is_none());
}

#[test]
fn verification_is_repeatable() {
    // re-verifying the same envelope against the same registry state gives
    // the same decision, accept or reject
    let mut a = fresh_node(false);
    let mut b = fresh_node(false);
    handshake(&mut a, ADDR_A, &mut b, ADDR_B);
    let m = Message::generate(5, &a).unwrap();
    let first = m.verify(ADDR_A, &mut b).is_ok();
    let second = m.verify(ADDR_A, &mut b).is_ok();
    assert!(first);
    assert_eq!(first, second);
    let mut tampered = Message::generate(5, &a).unwrap();
    tampered.timestamp = tampered.timestamp.wrapping_add(1);
    let r1 = tampered.verify(ADDR_A, &mut b).is_ok();
    let r2 = tampered.verify(ADDR_A, &mut b).is_ok();
    assert!(!r1);
    assert_eq!(r1, r2);
}

#[test]
fn record_transactions_close_and_propagate() {
    // peer A sends ten record-data transactions to assembler B: B's
    // mempool closes into a block, B broadcasts it, and A's tip advances
    let mut a = fresh_node(false);
    let mut b = fresh_node(true);
    handshake(&mut a, ADDR_A, &mut b, ADDR_B);
    let a_signer = signer_db();
    let mut broadcast = None;
    for i in 0..MEMPOOL_THRESHOLD {
        let tx = Transaction::generate_with_vec(
            2,
            format!("Hello World {}", i).into_bytes(),
            &a_signer,
        )
            .unwrap();
        let m = Message::generate_with_transaction(3, tx, &a).unwrap();
        let bytes = Packet::Message(m).to_bytes();
        let outcome = handle_incoming(&bytes, ADDR_A, &mut b).unwrap();
        if outcome.broadcast.is_some() {
            broadcast = outcome.broadcast;
        }
    }
    let block = broadcast.expect("the tenth transaction closes a block to broadcast");
    assert_eq!(b.block_count(), 1);
    assert_eq!(b.mempool_len(), 0);
    assert_eq!(b.tip_header(), block.header);
    // B broadcasts the block back to A as a type-4 message
    let prop = Message::generate_with_block(4, block, &b).unwrap();
    let bytes = Packet::Message(prop).to_bytes();
    let outcome = handle_incoming(&bytes, ADDR_B, &mut a).unwrap();
    let reply = outcome.reply.expect("a block propagation is acknowledged");
    let (resp, _) = decode_response(&reply, 1).unwrap();
    match resp.data {
        ResponseData::ResponseType1 => {},
        _ => panic!("a persisted block is acknowledged with a plain ack"),
    }
    assert_eq!(a.tip_header(), b.tip_header());
    // replaying the same propagation does not extend the chain: the
    // hardened persist rejects it and the engine answers with the error code
    let outcome = handle_incoming(&bytes, ADDR_B, &mut a).unwrap();
    let reply = outcome.reply.expect("a rejected propagation is still answered");
    let (resp, _) = decode_response(&reply, 1).unwrap();
    match resp.data {
        ResponseData::ErrorResponse => {},
        _ => panic!("a block that does not extend the tip is answered with the error code"),
    }
    assert_eq!(a.block_count(), 1);
}

#[test]
fn chain_sync_returns_non_genesis_blocks() {
    // a chain-sync request with the genesis header against a 3-block chain
    // returns exactly the two newer blocks, newest first, and a fresh peer
    // syncing from empty replays the whole chain
    let mut producer = fresh_node(true);
    let mut fresh = fresh_node(false);
    minichain::block::initialize_new_chain(&mut producer).unwrap();
    let genesis = producer.get_block(0).unwrap();
    let signer = signer_db();
    for round in 0..2 {
        for i in 0..MEMPOOL_THRESHOLD {
            let tx = Transaction::generate_with_vec(
                2,
                format!("sync {} {}", round, i).into_bytes(),
                &signer,
            )
                .unwrap();
            LocalBlock::insert_transaction(tx, &mut producer).unwrap();
        }
    }
    assert_eq!(producer.block_count(), 3);
    handshake(&mut fresh, ADDR_A, &mut producer, ADDR_B);
    // the fresh peer's request carries its empty tip: a full sync
    let full = Message::generate(5, &fresh).unwrap();
    let bytes = Packet::Message(full).to_bytes();
    let outcome = handle_incoming(&bytes, ADDR_A, &mut producer).unwrap();
    let reply = outcome.reply.expect("a sync request is answered");
    let (resp, _) = decode_response(&reply, 1).unwrap();
    match &resp.data {
        ResponseData::ResponseType3(d) => {
            assert_eq!(d.blocks.len(), 3);
            assert_eq!(d.blocks[0].header, producer.tip_header());
            assert_eq!(d.blocks[2].header, genesis.header);
        },
        _ => panic!("a sync request is answered with a block vector"),
    }
    // replaying the reply persists the chain oldest-first on the fresh peer
    let outcome = handle_incoming(&reply, ADDR_B, &mut fresh).unwrap();
    assert!(outcome.reply.is_none());
    assert_eq!(fresh.block_count(), 3);
    assert_eq!(fresh.tip_header(), producer.tip_header());
    // now the targeted walk: everything after genesis, newest first
    let path = producer
        .walk_back(&producer.tip_header(), &genesis.header)
        .unwrap();
    assert_eq!(path.len(), 2);
    assert_eq!(path[0].header, producer.tip_header());
    assert_ne!(path[1].header, genesis.header);
    assert_eq!(path[1].previous_block_header, genesis.header);
}

#[test]
fn malformed_packets_rejected() {
    let mut b = fresh_node(false);
    match handle_incoming(b"not a packet", ADDR_A, &mut b) {
        Err(NodeError::MalformedPayload) => {},
        _ => panic!("garbage bytes must be rejected as malformed"),
    }
    match handle_incoming(&[], ADDR_A, &mut b) {
        Err(NodeError::MalformedPayload) => {},
        _ => panic!("empty input must be rejected as malformed"),
    }
}

#[test]
fn message_packet_round_trip() {
    let a = fresh_node(false);
    let m = Message::generate(1, &a).unwrap();
    let ts = m.timestamp;
    let sig = m.signature.clone();
    let bytes = Packet::Message(m).to_bytes();
    assert_eq!(bytes[0], 1u8);
    let (back, consumed) = decode_message(&bytes, 1).unwrap();
    assert_eq!(consumed, bytes.len());
    assert_eq!(back.timestamp, ts);
    assert_eq!(back.signature, sig);
    match back.data {
        MessageData::MessageType1(d) => assert_eq!(d.public_key.len(), 33),
        _ => panic!("the payload variant must survive the round trip"),
    }
}

#[test]
fn response_generation_codes() {
    let a = fresh_node(false);
    let ack = Response::generate(1, a.store_ref()).unwrap();
    assert!(matches!(ack.data, ResponseData::ResponseType1));
    let shake = Response::generate(2, a.store_ref()).unwrap();
    match shake.data {
        ResponseData::ResponseType2(d) => assert_eq!(d.pk.len(), 33),
        _ => panic!("the handshake-ack carries the responder's key"),
    }
    let error = Response::generate(500, a.store_ref()).unwrap();
    assert!(matches!(error.data, ResponseData::ErrorResponse));
    assert_eq!(error.signature.len(), 64);
}
