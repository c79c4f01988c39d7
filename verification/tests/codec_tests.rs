//! Round trips and exact values for the canonical byte codec.

use minichain::codec::{enc_u64, dec_u64, enc_i64, dec_i64, enc_bytes, dec_bytes, enc_i64_dec_str, bytes_eq, bytes_range, copy_bytes};
use minichain::checksum;
use minichain::transactions::{
    Transaction, TransactionData, DataTransactionType2, DataTransactionType7,
    transaction_to_bytes, decode_transaction, transaction_signing_bytes,
};
use minichain::ledger::{Address, AddressFormat, AddressesState, encode_ledger, decode_ledger};

fn sample_tx(sig_byte: u8) -> Transaction {
    Transaction {
        timestamp: 1234567890,
        pk: vec![7u8; 33],
        data: TransactionData::Type2(DataTransactionType2 { data: vec![1, 2, 3] }),
        balance_variation: 1,
        signature: vec![sig_byte; 64],
    }
}

#[test]
fn u64_round_trip() {
    let mut out: Vec<u8> = Vec::new();
    enc_u64(&mut out, 0);
    enc_u64(&mut out, 1);
    enc_u64(&mut out, 0xdead_beef_0102_0304);
    enc_u64(&mut out, u64::MAX);
    let (a, p) = dec_u64(&out, 0).unwrap();
    let (b, p) = dec_u64(&out, p).unwrap();
    let (c, p) = dec_u64(&out, p).unwrap();
    let (d, p) = dec_u64(&out, p).unwrap();
    assert_eq!((a, b, c, d), (0, 1, 0xdead_beef_0102_0304, u64::MAX));
    assert_eq!(p, out.len());
    // little-endian: 1u64 encodes with its low byte first
    assert_eq!(out[8], 1u8);
    assert_eq!(out[9], 0u8);
}

#[test]
fn i64_round_trip() {
    let mut out: Vec<u8> = Vec::new();
    enc_i64(&mut out, -1);
    enc_i64(&mut out, i64::MIN);
    enc_i64(&mut out, i64::MAX);
    let (a, p) = dec_i64(&out, 0).unwrap();
    let (b, p) = dec_i64(&out, p).unwrap();
    let (c, _) = dec_i64(&out, p).unwrap();
    assert_eq!((a, b, c), (-1, i64::MIN, i64::MAX));
}

#[test]
fn bytes_round_trip() {
    let mut out: Vec<u8> = Vec::new();
    enc_bytes(&mut out, b"hello world");
    enc_bytes(&mut out, b"");
    let (v, p) = dec_bytes(&out, 0).unwrap();
    assert_eq!(v, b"hello world".to_vec());
    let (w, p2) = dec_bytes(&out, p).unwrap();
    assert_eq!(w, Vec::<u8>::new());
    assert_eq!(p2, out.len());
}

#[test]
fn truncated_bytes_rejected() {
    let mut out: Vec<u8> = Vec::new();
    enc_bytes(&mut out, b"hello");
    out.pop();
    assert!(dec_bytes(&out, 0).is_none());
}

#[test]
fn decimal_rendering_matches_display() {
    for n in [0i64, 7, 10, 12345, -1, -987654321, i64::MAX, i64::MIN] {
        let mut out: Vec<u8> = Vec::new();
        enc_i64_dec_str(&mut out, n);
        assert_eq!(String::from_utf8(out).unwrap(), n.to_string());
    }
}

#[test]
fn checksum_exact_value() {
    // 1 + 2 + 253 = 256, and the sum of "abc" is 97 + 98 + 99
    assert_eq!(checksum(&[1, 2, 253]), 256);
    assert_eq!(checksum(b"abc"), 294);
    assert_eq!(checksum(&[]), 0);
}

#[test]
fn byte_helpers() {
    assert!(bytes_eq(b"same", b"same"));
    assert!(!bytes_eq(b"same", b"sane"));
    assert!(!bytes_eq(b"same", b"sam"));
    let v = vec![9u8, 8, 7, 6];
    assert_eq!(bytes_range(&v, 1, 3), vec![8u8, 7]);
    assert_eq!(copy_bytes(&v), v);
}

#[test]
fn transaction_round_trip() {
    let tx = sample_tx(0xAB);
    let bytes = transaction_to_bytes(&tx);
    let (back, consumed) = decode_transaction(&bytes, 0).unwrap();
    assert_eq!(consumed, bytes.len());
    assert_eq!(back.timestamp, tx.timestamp);
    assert_eq!(back.pk, tx.pk);
    assert_eq!(back.balance_variation, tx.balance_variation);
    assert_eq!(back.signature, tx.signature);
    match back.data {
        TransactionData::Type2(d) => assert_eq!(d.data, vec![1, 2, 3]),
        _ => panic!("wrong payload variant"),
    }
}

#[test]
fn transfer_transaction_round_trip() {
    let tx = Transaction {
        timestamp: -5,
        pk: vec![1u8; 33],
        data: TransactionData::Type7(DataTransactionType7 {
            recipient_pk: vec![2u8; 33],
            balance_variation: 41,
        }),
        balance_variation: 42,
        signature: vec![3u8; 64],
    };
    let bytes = transaction_to_bytes(&tx);
    let (back, _) = decode_transaction(&bytes, 0).unwrap();
    match back.data {
        TransactionData::Type7(d) => {
            assert_eq!(d.recipient_pk, vec![2u8; 33]);
            assert_eq!(d.balance_variation, 41);
        },
        _ => panic!("wrong payload variant"),
    }
}

#[test]
fn signing_bytes_start_with_decimal_timestamp() {
    let tx = sample_tx(0x01);
    let signing = transaction_signing_bytes(tx.timestamp, &tx.data);
    assert!(signing.starts_with(b"1234567890"));
}

#[test]
fn ledger_round_trip() {
    let st = AddressesState {
        state: vec![
            (
                vec![5u8; 33],
                Address {
                    last_transaction: vec![6u8; 64],
                    balance: -77,
                    linked_addresses: vec![AddressFormat { address: vec![9u8; 33] }],
                },
            ),
            (
                vec![8u8; 33],
                Address { last_transaction: vec![0u8; 64], balance: 12, linked_addresses: vec![] },
            ),
        ],
    };
    let mut out: Vec<u8> = Vec::new();
    encode_ledger(&st, &mut out);
    let (back, consumed) = decode_ledger(&out, 0).unwrap();
    assert_eq!(consumed, out.len());
    assert_eq!(back.state.len(), 2);
    assert_eq!(back.state[0].0, vec![5u8; 33]);
    assert_eq!(back.state[0].1.balance, -77);
    assert_eq!(back.state[0].1.linked_addresses.len(), 1);
    assert_eq!(back.state[1].1.balance, 12);
}
