//! The chain engine: signatures, the store, the mempool, the deriver, and
//! the block lifecycle against the real outside libraries.

use minichain::signature::{new_pair, secret_key_ok, generate_public_key, new_signature, verify_signature};
use minichain::keyvalue::{open_temporary, insert, get};
use minichain::storekeys::key_secret_bytes;
use minichain::merkle::Mempool;
use minichain::transactions::{Transaction, TransactionData, DataTransactionType2, DataTransactionType7, transaction_to_bytes};
use minichain::ledger::AddressesState;
use minichain::block::{NodeState, LocalBlock, initialize_new_chain, FederationSignature, MEMPOOL_THRESHOLD, sort_transactions};
use minichain::errors::NodeError;

fn fresh_node(assembler: bool) -> NodeState {
    let mut db = open_temporary().unwrap();
    let (sk, _pk) = new_pair();
    let key = key_secret_bytes();
    insert(&mut db, &key, &sk).unwrap();
    NodeState::new(db, assembler)
}

fn record_tx(signer: &sled::Db, payload: &str) -> Transaction {
    Transaction::generate_with_vec(2, payload.as_bytes().to_vec(), signer).unwrap()
}

fn signer_db() -> sled::Db {
    let mut db = open_temporary().unwrap();
    let (sk, _pk) = new_pair();
    let key = key_secret_bytes();
    insert(&mut db, &key, &sk).unwrap();
    db
}

#[test]
fn signature_sign_then_verify() {
    let (sk, pk) = new_pair();
    assert!(secret_key_ok(&sk));
    assert_eq!(pk, generate_public_key(&sk));
    let msg = b"Hello world";
    let sig = new_signature(msg, &sk);
    assert!(verify_signature(msg, &pk, &sig));
    // a signature over different bytes must not verify for this message
    let other = new_signature(b"Random data", &sk);
    assert!(!verify_signature(msg, &pk, &other));
    // garbage keys and signatures are rejected, not trusted
    assert!(!verify_signature(msg, &[0u8; 33], &sig));
    assert!(!verify_signature(msg, &pk, &[0u8; 64]));
}

#[test]
fn store_put_and_get() {
    let mut db = open_temporary().unwrap();
    assert_eq!(get(&db, b"key1").unwrap(), None);
    insert(&mut db, b"key1", b"Hello world").unwrap();
    assert_eq!(get(&db, b"key1").unwrap(), Some(b"Hello world".to_vec()));
    insert(&mut db, b"key1", b"rewritten").unwrap();
    assert_eq!(get(&db, b"key1").unwrap(), Some(b"rewritten".to_vec()));
    assert_eq!(get(&db, b"key2").unwrap(), None);
}

#[test]
fn mempool_insert_get_and_root() {
    let signer = signer_db();
    let mut pool = Mempool::new();
    let mut empty_for_root = Mempool::new();
    let empty_root = empty_for_root.root();
    let tx = record_tx(&signer, "first");
    let sig = tx.signature.clone();
    pool.insert(tx.duplicate());
    assert_eq!(pool.len(), 1);
    assert!(pool.contains(&sig));
    let back = pool.get(&sig).unwrap();
    assert_eq!(transaction_to_bytes(&back), transaction_to_bytes(&tx));
    assert!(pool.get(&[0u8; 64]).is_none());
    // the root digest reflects the contents: it moves when a transaction
    // is admitted
    let root = pool.root();
    assert_eq!(root.len(), 32);
    assert_ne!(root, empty_root);
}

#[test]
fn snapshot_round_trip_through_trie() {
    let signer = signer_db();
    let mut pool = Mempool::new();
    let tx_a = record_tx(&signer, "aaa");
    let tx_b = record_tx(&signer, "bbb");
    pool.insert(tx_a.duplicate());
    pool.insert(tx_b.duplicate());
    let root = pool.root();
    let body = pool.body_bytes();
    let view = Mempool::load_from(&body, &root).unwrap();
    let back = view.get(&tx_a.signature).unwrap();
    assert_eq!(transaction_to_bytes(&back), transaction_to_bytes(&tx_a));
    let back_b = view.get(&tx_b.signature).unwrap();
    assert_eq!(transaction_to_bytes(&back_b), transaction_to_bytes(&tx_b));
    // a wrong root digest must be rejected
    let wrong = vec![0u8; 32];
    assert!(Mempool::load_from(&body, &wrong).is_err());
    // corrupt body bytes must be rejected
    let mut bad = body.clone();
    let last = bad.len() - 1;
    bad[last] ^= 0xFF;
    assert!(Mempool::load_from(&bad, &root).is_err());
}

#[test]
fn derive_transfer_balances() {
    // a transfer of value 5: the recipient gains exactly 5 and the sender
    // gains 5 + 1 (its own balance variation, as generated)
    let sender_pk = vec![1u8; 33];
    let recipient_pk = vec![2u8; 33];
    let tx = Transaction {
        timestamp: 0,
        pk: sender_pk.clone(),
        data: TransactionData::Type7(DataTransactionType7 {
            recipient_pk: recipient_pk.clone(),
            balance_variation: 5,
        }),
        balance_variation: 6,
        signature: vec![9u8; 64],
    };
    let derived = minichain::ledger::derive(AddressesState::new(), &vec![tx]);
    assert_eq!(derived.state.len(), 2);
    let recipient = derived.get(&recipient_pk).unwrap();
    assert_eq!(recipient.balance, 5);
    let sender = derived.get(&sender_pk).unwrap();
    assert_eq!(sender.balance, 6);
    assert_eq!(sender.last_transaction, vec![9u8; 64]);
    // the recipient's last transaction is untouched by the credit
    assert_eq!(recipient.last_transaction, vec![0u8; 64]);
}

#[test]
fn derive_record_data_accumulates() {
    let pk = vec![4u8; 33];
    let mk = |sig: u8| Transaction {
        timestamp: 0,
        pk: pk.clone(),
        data: TransactionData::Type2(DataTransactionType2 { data: vec![] }),
        balance_variation: 1,
        signature: vec![sig; 64],
    };
    let derived = minichain::ledger::derive(AddressesState::new(), &vec![mk(1), mk(2), mk(3)]);
    assert_eq!(derived.state.len(), 1);
    let entry = derived.get(&pk).unwrap();
    assert_eq!(entry.balance, 3);
    assert_eq!(entry.last_transaction, vec![3u8; 64]);
}

#[test]
fn sort_orders_by_signature() {
    let mk = |sig: u8| Transaction {
        timestamp: 0,
        pk: vec![0u8; 33],
        data: TransactionData::Type2(DataTransactionType2 { data: vec![] }),
        balance_variation: 1,
        signature: vec![sig; 64],
    };
    let sorted = sort_transactions(vec![mk(9), mk(1), mk(5)]);
    assert_eq!(sorted[0].signature[0], 1);
    assert_eq!(sorted[1].signature[0], 5);
    assert_eq!(sorted[2].signature[0], 9);
}

#[test]
fn genesis_block_shape() {
    // assemble genesis with a single federation-key transaction: empty
    // parent link, a federation co-signature, and one ledger entry holding
    // the maximum-balance sentinel
    let mut state = fresh_node(true);
    initialize_new_chain(&mut state).unwrap();
    assert_eq!(state.block_count(), 1);
    let genesis = state.get_block(0).unwrap();
    assert_eq!(genesis.previous_block_header.len(), 0);
    assert_eq!(genesis.header.len(), 32);
    match &genesis.federation_signature {
        FederationSignature::Signed(sig) => assert_eq!(sig.len(), 64),
        FederationSignature::Unsigned => panic!("genesis must carry a federation co-signature"),
    }
    assert_eq!(genesis.addresses_state.state.len(), 1);
    assert_eq!(genesis.addresses_state.state[0].1.balance, i64::MAX);
    assert_eq!(state.tip_header(), genesis.header);
}

#[test]
fn threshold_closes_exactly_one_block() {
    // admitting exactly the threshold count of transactions closes one
    // block: none before the last admission, one at it
    let signer = signer_db();
    let mut state = fresh_node(true);
    for i in 0..MEMPOOL_THRESHOLD - 1 {
        let tx = record_tx(&signer, &format!("payload {}", i));
        let closed = LocalBlock::insert_transaction(tx, &mut state).unwrap();
        assert!(closed.is_none());
        assert_eq!(state.block_count(), 0);
    }
    assert_eq!(state.mempool_len(), MEMPOOL_THRESHOLD - 1);
    let tx = record_tx(&signer, "the last one");
    let closed = LocalBlock::insert_transaction(tx, &mut state).unwrap();
    let block = closed.expect("the threshold admission must close a block");
    assert_eq!(state.block_count(), 1);
    assert_eq!(state.mempool_len(), 0);
    assert_eq!(state.tip_header(), block.header);
    assert_eq!(block.previous_block_header.len(), 0);
}

#[test]
fn non_assembler_never_closes() {
    let signer = signer_db();
    let mut state = fresh_node(false);
    for i in 0..MEMPOOL_THRESHOLD + 2 {
        let tx = record_tx(&signer, &format!("payload {}", i));
        let closed = LocalBlock::insert_transaction(tx, &mut state).unwrap();
        assert!(closed.is_none());
    }
    assert_eq!(state.block_count(), 0);
    assert_eq!(state.mempool_len(), MEMPOOL_THRESHOLD + 2);
}

#[test]
fn tampered_transaction_rejected() {
    let signer = signer_db();
    let mut state = fresh_node(true);
    let mut tx = record_tx(&signer, "authentic");
    tx.signature[0] ^= 0xFF;
    match LocalBlock::insert_transaction(tx, &mut state) {
        Err(NodeError::AuthenticationFailure) => {},
        other => panic!("expected an authentication failure, got {:?}", other.is_ok()),
    }
    assert_eq!(state.mempool_len(), 0);
}

#[test]
fn missing_local_key_reported() {
    let db = open_temporary().unwrap();
    match Transaction::generate_with_vec(2, vec![1], &db) {
        Err(NodeError::MissingLocalKey) => {},
        _ => panic!("generation without a stored secret key must fail"),
    }
}

#[test]
fn walk_back_and_search() {
    // build a three-block chain, then walk back from the tip to the genesis
    // header: exactly the two newer blocks come back, newest first
    let signer = signer_db();
    let mut state = fresh_node(true);
    initialize_new_chain(&mut state).unwrap();
    let genesis = state.get_block(0).unwrap();
    let mut probe_sig: Vec<u8> = Vec::new();
    for round in 0..2 {
        for i in 0..MEMPOOL_THRESHOLD {
            let tx = record_tx(&signer, &format!("round {} item {}", round, i));
            if round == 0 && i == 3 {
                probe_sig = tx.signature.clone();
            }
            LocalBlock::insert_transaction(tx, &mut state).unwrap();
        }
    }
    assert_eq!(state.block_count(), 3);
    let tip = state.tip_header();
    let path = state.walk_back(&tip, &genesis.header).unwrap();
    assert_eq!(path.len(), 2);
    assert_eq!(path[0].header, tip);
    assert_eq!(path[0].previous_block_header, path[1].header);
    assert_eq!(path[1].previous_block_header, genesis.header);
    // walking back with an empty stop header reaches the genesis block
    let whole = state.walk_back(&tip, &[]).unwrap();
    assert_eq!(whole.len(), 3);
    assert_eq!(whole[2].header, genesis.header);
    // a recorded transaction is found again in the chain
    let found = minichain::block::Block::search_transaction_in_blockchain(&probe_sig, &state)
        .unwrap()
        .expect("the recorded transaction must be found");
    assert_eq!(found.signature, probe_sig);
    let missing = minichain::block::Block::search_transaction_in_blockchain(&[7u8; 64], &state)
        .unwrap();
    assert!(missing.is_none());
}

#[test]
fn persist_incoming_checks_linkage() {
    let signer = signer_db();
    let mut producer = fresh_node(true);
    let mut follower = fresh_node(false);
    for i in 0..MEMPOOL_THRESHOLD {
        let tx = record_tx(&signer, &format!("batch {}", i));
        LocalBlock::insert_transaction(tx, &mut producer).unwrap();
    }
    let block = producer.get_block(0).unwrap();
    follower.persist_incoming(&block).unwrap();
    assert_eq!(follower.tip_header(), block.header);
    // persisting the same block again does not extend the chain
    match follower.persist_incoming(&block) {
        Err(NodeError::MalformedPayload) => {},
        _ => panic!("a block that does not extend the tip must be rejected"),
    }
    assert_eq!(follower.block_count(), 1);
}
