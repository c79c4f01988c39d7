//! Transactions: the payload variants, their canonical encoding, and the
//! generators that build signed transactions from the locally stored keys.
//!
//! A transaction's signature authenticates exactly the bytes
//! `decimal-string(timestamp) ++ canonical-encoding(payload)`.

use vstd::prelude::*;
use crate::codec::{enc_bytes_spec, i64_le, i64_dec_str, dec_bytes_at, dec_i64_at, enc_bytes, enc_i64, enc_i64_dec_str, dec_bytes, dec_i64, copy_bytes, lemma_dec_bytes_of_enc, lemma_dec_i64_of_enc};
use crate::errors::NodeError;
use crate::keyvalue;
use crate::keyvalue::db_view;
use crate::signature::{sk_ok, pk_of, sig_of, sig_valid, new_pair, secret_key_ok, generate_public_key, new_signature, verify_signature};
use crate::storekeys::{key_secret, key_federated, key_secret_bytes, key_federated_bytes};
use crate::clock;

verus! {

// ---------------------------------------------------------------------------
// Data model
// ---------------------------------------------------------------------------

/// Payload of a *register-linked-address* transaction (type code 1).
#[derive(Clone)]
pub struct DataTransactionType1 {
    pub child_pk: Vec<u8>,
}

/// Payload of a *record-arbitrary-data* transaction (type code 2).
#[derive(Clone)]
pub struct DataTransactionType2 {
    pub data: Vec<u8>,
}

/// Payload of an *initialize-federation-key* transaction (type code 6).
/// Must be the chain's first transaction; its key co-signs later blocks.
#[derive(Clone)]
pub struct DataTransactionType6 {
    pub federated_pk: Vec<u8>,
}

/// Payload of a *transfer-value* transaction (type code 7).
#[derive(Clone)]
pub struct DataTransactionType7 {
    pub recipient_pk: Vec<u8>,
    pub balance_variation: i64,
}

/// The tagged payload of a transaction.
#[derive(Clone)]
pub enum TransactionData {
    Type1(DataTransactionType1),
    Type2(DataTransactionType2),
    Type6(DataTransactionType6),
    Type7(DataTransactionType7),
}

/// A signed transaction, identified uniquely by its signature.
#[derive(Clone)]
pub struct Transaction {
    pub timestamp: i64,
    pub pk: Vec<u8>,
    pub data: TransactionData,
    pub balance_variation: i64,
    pub signature: Vec<u8>,
}

/// Mathematical model of a transaction payload.
pub enum TransactionDataView {
    Type1 { child_pk: Seq<u8> },
    Type2 { data: Seq<u8> },
    Type6 { federated_pk: Seq<u8> },
    Type7 { recipient_pk: Seq<u8>, balance_variation: i64 },
}

/// Mathematical model of a transaction.
pub struct TransactionView {
    pub timestamp: i64,
    pub pk: Seq<u8>,
    pub data: TransactionDataView,
    pub balance_variation: i64,
    pub signature: Seq<u8>,
}

impl View for TransactionData {
    type V = TransactionDataView;

    open spec fn view(&self) -> TransactionDataView {
        match self {
            TransactionData::Type1(d) => TransactionDataView::Type1 { child_pk: d.child_pk@ },
            TransactionData::Type2(d) => TransactionDataView::Type2 { data: d.data@ },
            TransactionData::Type6(d) => TransactionDataView::Type6 {
                federated_pk: d.federated_pk@,
            },
            TransactionData::Type7(d) => TransactionDataView::Type7 {
                recipient_pk: d.recipient_pk@,
                balance_variation: d.balance_variation,
            },
        }
    }
}

impl View for Transaction {
    type V = TransactionView;

    open spec fn view(&self) -> TransactionView {
        TransactionView {
            timestamp: self.timestamp,
            pk: self.pk@,
            data: self.data@,
            balance_variation: self.balance_variation,
            signature: self.signature@,
        }
    }
}

/// Structural well-formedness of a payload: key fields have their exact
/// widths and a data field fits a length prefix.
pub open spec fn txdata_wf(d: TransactionDataView) -> bool {
    match d {
        TransactionDataView::Type1 { child_pk } => child_pk.len() == 33,
        TransactionDataView::Type2 { data } => data.len() + 9 <= u64::MAX,
        TransactionDataView::Type6 { federated_pk } => federated_pk.len() == 33,
        TransactionDataView::Type7 { recipient_pk, .. } => recipient_pk.len() == 33,
    }
}

/// Structural well-formedness of a transaction: a 33-byte issuer key, a
/// 64-byte signature, and a well-formed payload.
pub open spec fn tx_wf(t: TransactionView) -> bool {
    t.pk.len() == 33 && t.signature.len() == 64 && txdata_wf(t.data)
}

// ---------------------------------------------------------------------------
// Canonical encoding
// ---------------------------------------------------------------------------

/// Canonical encoding of a payload: a one-byte type code, then the fields.
pub open spec fn txdata_enc(d: TransactionDataView) -> Seq<u8> {
    match d {
        TransactionDataView::Type1 { child_pk } => seq![1u8] + enc_bytes_spec(child_pk),
        TransactionDataView::Type2 { data } => seq![2u8] + enc_bytes_spec(data),
        TransactionDataView::Type6 { federated_pk } => seq![6u8] + enc_bytes_spec(federated_pk),
        TransactionDataView::Type7 { recipient_pk, balance_variation } => seq![7u8]
            + enc_bytes_spec(recipient_pk) + i64_le(balance_variation),
    }
}

/// Canonical encoding of a whole transaction.
pub open spec fn tx_enc(t: TransactionView) -> Seq<u8> {
    i64_le(t.timestamp) + enc_bytes_spec(t.pk) + enc_bytes_spec(txdata_enc(t.data)) + i64_le(
        t.balance_variation,
    ) + enc_bytes_spec(t.signature)
}

/// The bytes a transaction's signature authenticates: the decimal rendering
/// of the timestamp followed by the canonical encoding of the payload.
pub open spec fn tx_signing_bytes(timestamp: i64, d: TransactionDataView) -> Seq<u8> {
    i64_dec_str(timestamp as int) + txdata_enc(d)
}

/// Appends the canonical encoding of `d` to `out`.
pub fn encode_txdata(d: &TransactionData, out: &mut Vec<u8>)
    ensures
        final(out)@ == old(out)@ + txdata_enc(d@),
{
    match d {
        TransactionData::Type1(p) => {
            out.push(1u8);
            enc_bytes(out, p.child_pk.as_slice());
        },
        TransactionData::Type2(p) => {
            out.push(2u8);
            enc_bytes(out, p.data.as_slice());
        },
        TransactionData::Type6(p) => {
            out.push(6u8);
            enc_bytes(out, p.federated_pk.as_slice());
        },
        TransactionData::Type7(p) => {
            out.push(7u8);
            enc_bytes(out, p.recipient_pk.as_slice());
            enc_i64(out, p.balance_variation);
        },
    }
    proof {
        assert(out@ =~= old(out)@ + txdata_enc(d@));
    }
}

/// Appends the canonical encoding of `tx` to `out`.
pub fn encode_transaction(tx: &Transaction, out: &mut Vec<u8>)
    ensures
        final(out)@ == old(out)@ + tx_enc(tx@),
{
    enc_i64(out, tx.timestamp);
    enc_bytes(out, tx.pk.as_slice());
    let mut payload: Vec<u8> = Vec::new();
    encode_txdata(&tx.data, &mut payload);
    enc_bytes(out, payload.as_slice());
    enc_i64(out, tx.balance_variation);
    enc_bytes(out, tx.signature.as_slice());
    proof {
        assert(out@ =~= old(out)@ + tx_enc(tx@));
    }
}

/// The canonical encoding of `tx` as a fresh vector.
pub fn transaction_to_bytes(tx: &Transaction) -> (r: Vec<u8>)
    ensures
        r@ == tx_enc(tx@),
{
    let mut out: Vec<u8> = Vec::new();
    encode_transaction(tx, &mut out);
    out
}

/// The bytes `tx`'s signature must authenticate, as a fresh vector.
pub fn transaction_signing_bytes(timestamp: i64, d: &TransactionData) -> (r: Vec<u8>)
    ensures
        r@ == tx_signing_bytes(timestamp, d@),
{
    let mut out: Vec<u8> = Vec::new();
    enc_i64_dec_str(&mut out, timestamp);
    encode_txdata(d, &mut out);
    out
}

// ---------------------------------------------------------------------------
// Decoding
// ---------------------------------------------------------------------------

/// Parse of a payload at `pos`.
pub open spec fn dec_txdata_at(s: Seq<u8>, pos: int) -> Option<(TransactionDataView, int)> {
    if 0 <= pos < s.len() {
        let tag = s[pos];
        if tag == 1 {
            match dec_bytes_at(s, pos + 1) {
                Some((b, p)) => Some((TransactionDataView::Type1 { child_pk: b }, p)),
                None => None,
            }
        } else if tag == 2 {
            match dec_bytes_at(s, pos + 1) {
                Some((b, p)) => Some((TransactionDataView::Type2 { data: b }, p)),
                None => None,
            }
        } else if tag == 6 {
            match dec_bytes_at(s, pos + 1) {
                Some((b, p)) => Some((TransactionDataView::Type6 { federated_pk: b }, p)),
                None => None,
            }
        } else if tag == 7 {
            match dec_bytes_at(s, pos + 1) {
                Some((b, p)) => match dec_i64_at(s, p) {
                    Some((v, p2)) => Some(
                        (TransactionDataView::Type7 { recipient_pk: b, balance_variation: v }, p2),
                    ),
                    None => None,
                },
                None => None,
            }
        } else {
            None
        }
    } else {
        None
    }
}

/// Reads a payload at `pos`.
pub fn decode_txdata(buf: &[u8], pos: usize) -> (r: Option<(TransactionData, usize)>)
    ensures
        match r {
            Some((d, p)) => dec_txdata_at(buf@, pos as int) == Some((d@, p as int)),
            None => dec_txdata_at(buf@, pos as int) is None,
        },
{
    if pos >= buf.len() {
        return None;
    }
    let tag = buf[pos];
    if tag == 1 {
        match dec_bytes(buf, pos + 1) {
            Some((b, p)) => Some((TransactionData::Type1(DataTransactionType1 { child_pk: b }), p)),
            None => None,
        }
    } else if tag == 2 {
        match dec_bytes(buf, pos + 1) {
            Some((b, p)) => Some((TransactionData::Type2(DataTransactionType2 { data: b }), p)),
            None => None,
        }
    } else if tag == 6 {
        match dec_bytes(buf, pos + 1) {
            Some((b, p)) => Some(
                (TransactionData::Type6(DataTransactionType6 { federated_pk: b }), p),
            ),
            None => None,
        }
    } else if tag == 7 {
        match dec_bytes(buf, pos + 1) {
            Some((b, p)) => match dec_i64(buf, p) {
                Some((v, p2)) => Some(
                    (
                        TransactionData::Type7(
                            DataTransactionType7 { recipient_pk: b, balance_variation: v },
                        ),
                        p2,
                    ),
                ),
                None => None,
            },
            None => None,
        }
    } else {
        None
    }
}

/// Parse of a transaction at `pos`.
pub open spec fn dec_tx_at(s: Seq<u8>, pos: int) -> Option<(TransactionView, int)> {
    match dec_i64_at(s, pos) {
        Some((ts, p1)) => match dec_bytes_at(s, p1) {
            Some((pk, p2)) => match dec_bytes_at(s, p2) {
                Some((payload, p3)) => match dec_txdata_at(payload, 0) {
                    Some((d, q)) => if q == payload.len() {
                        match dec_i64_at(s, p3) {
                            Some((bv, p4)) => match dec_bytes_at(s, p4) {
                                Some((sig, p5)) => Some(
                                    (
                                        TransactionView {
                                            timestamp: ts,
                                            pk: pk,
                                            data: d,
                                            balance_variation: bv,
                                            signature: sig,
                                        },
                                        p5,
                                    ),
                                ),
                                None => None,
                            },
                            None => None,
                        }
                    } else {
                        None
                    },
                    None => None,
                },
                None => None,
            },
            None => None,
        },
        None => None,
    }
}

/// Reads a transaction at `pos`.
pub fn decode_transaction(buf: &[u8], pos: usize) -> (r: Option<(Transaction, usize)>)
    ensures
        match r {
            Some((tx, p)) => dec_tx_at(buf@, pos as int) == Some((tx@, p as int)),
            None => dec_tx_at(buf@, pos as int) is None,
        },
{
    let (ts, p1) = match dec_i64(buf, pos) {
        Some(x) => x,
        None => {
            return None;
        },
    };
    let (pk, p2) = match dec_bytes(buf, p1) {
        Some(x) => x,
        None => {
            return None;
        },
    };
    let (payload, p3) = match dec_bytes(buf, p2) {
        Some(x) => x,
        None => {
            return None;
        },
    };
    let (d, q) = match decode_txdata(payload.as_slice(), 0) {
        Some(x) => x,
        None => {
            return None;
        },
    };
    if q != payload.len() {
        return None;
    }
    let (bv, p4) = match dec_i64(buf, p3) {
        Some(x) => x,
        None => {
            return None;
        },
    };
    let (sig, p5) = match dec_bytes(buf, p4) {
        Some(x) => x,
        None => {
            return None;
        },
    };
    Some(
        (
            Transaction { timestamp: ts, pk: pk, data: d, balance_variation: bv, signature: sig },
            p5,
        ),
    )
}

// ---------------------------------------------------------------------------
// Round trip
// ---------------------------------------------------------------------------

/// If the bytes at `pos` are `txdata_enc(d)`, the payload parse yields `d`.
pub proof fn lemma_dec_txdata_of_enc(s: Seq<u8>, pos: int, d: TransactionDataView)
    requires
        0 <= pos,
        txdata_wf(d),
        pos + txdata_enc(d).len() <= s.len(),
        s.subrange(pos, pos + txdata_enc(d).len() as int) == txdata_enc(d),
    ensures
        dec_txdata_at(s, pos) == Some((d, pos + txdata_enc(d).len())),
{
    let e = txdata_enc(d);
    assert(s[pos] == e[0]);
    match d {
        TransactionDataView::Type1 { child_pk } => {
            assert(s.subrange(pos + 1, pos + 1 + enc_bytes_spec(child_pk).len() as int)
                =~= e.subrange(1, 1 + enc_bytes_spec(child_pk).len() as int));
            assert(e.subrange(1, 1 + enc_bytes_spec(child_pk).len() as int) =~= enc_bytes_spec(
                child_pk,
            ));
            lemma_dec_bytes_of_enc(s, pos + 1, child_pk);
        },
        TransactionDataView::Type2 { data } => {
            assert(s.subrange(pos + 1, pos + 1 + enc_bytes_spec(data).len() as int) =~= e.subrange(
                1,
                1 + enc_bytes_spec(data).len() as int,
            ));
            assert(e.subrange(1, 1 + enc_bytes_spec(data).len() as int) =~= enc_bytes_spec(data));
            lemma_dec_bytes_of_enc(s, pos + 1, data);
        },
        TransactionDataView::Type6 { federated_pk } => {
            assert(s.subrange(pos + 1, pos + 1 + enc_bytes_spec(federated_pk).len() as int)
                =~= e.subrange(1, 1 + enc_bytes_spec(federated_pk).len() as int));
            assert(e.subrange(1, 1 + enc_bytes_spec(federated_pk).len() as int) =~= enc_bytes_spec(
                federated_pk,
            ));
            lemma_dec_bytes_of_enc(s, pos + 1, federated_pk);
        },
        TransactionDataView::Type7 { recipient_pk, balance_variation } => {
            let blen = enc_bytes_spec(recipient_pk).len() as int;
            assert(s.subrange(pos + 1, pos + 1 + blen) =~= e.subrange(1, 1 + blen));
            assert(e.subrange(1, 1 + blen) =~= enc_bytes_spec(recipient_pk));
            lemma_dec_bytes_of_enc(s, pos + 1, recipient_pk);
            assert(s.subrange(pos + 1 + blen, pos + 1 + blen + 8) =~= e.subrange(
                1 + blen,
                1 + blen + 8,
            ));
            assert(e.subrange(1 + blen, 1 + blen + 8) =~= i64_le(balance_variation));
            lemma_dec_i64_of_enc(s, pos + 1 + blen, balance_variation);
        },
    }
}

/// If the bytes at `pos` are `tx_enc(t)`, the transaction parse yields `t`.
pub proof fn lemma_dec_tx_of_enc(s: Seq<u8>, pos: int, t: TransactionView)
    requires
        0 <= pos,
        tx_wf(t),
        pos + tx_enc(t).len() <= s.len(),
        s.subrange(pos, pos + tx_enc(t).len() as int) == tx_enc(t),
    ensures
        dec_tx_at(s, pos) == Some((t, pos + tx_enc(t).len())),
{
    let e = tx_enc(t);
    let payload = txdata_enc(t.data);
    let p1 = pos + 8;
    let p2 = p1 + 8 + t.pk.len() as int;
    let p3 = p2 + 8 + payload.len() as int;
    let p4 = p3 + 8;
    let p5 = p4 + 8 + t.signature.len() as int;
    assert(s.subrange(pos, p1) =~= e.subrange(0, 8));
    assert(e.subrange(0, 8) =~= i64_le(t.timestamp));
    lemma_dec_i64_of_enc(s, pos, t.timestamp);
    assert(s.subrange(p1, p2) =~= e.subrange(8, p2 - pos));
    assert(e.subrange(8, p2 - pos) =~= enc_bytes_spec(t.pk));
    lemma_dec_bytes_of_enc(s, p1, t.pk);
    assert(s.subrange(p2, p3) =~= e.subrange(p2 - pos, p3 - pos));
    assert(e.subrange(p2 - pos, p3 - pos) =~= enc_bytes_spec(payload));
    lemma_dec_bytes_of_enc(s, p2, payload);
    assert(payload.subrange(0, payload.len() as int) =~= payload);
    lemma_dec_txdata_of_enc(payload, 0, t.data);
    assert(s.subrange(p3, p4) =~= e.subrange(p3 - pos, p4 - pos));
    assert(e.subrange(p3 - pos, p4 - pos) =~= i64_le(t.balance_variation));
    lemma_dec_i64_of_enc(s, p3, t.balance_variation);
    assert(s.subrange(p4, p5) =~= e.subrange(p4 - pos, p5 - pos));
    assert(e.subrange(p4 - pos, p5 - pos) =~= enc_bytes_spec(t.signature));
    lemma_dec_bytes_of_enc(s, p4, t.signature);
}

// ---------------------------------------------------------------------------
// Generators
// ---------------------------------------------------------------------------

impl DataTransactionType2 {
    /// Wraps raw bytes as a *record-arbitrary-data* payload.
    pub fn generate(data: Vec<u8>) -> (r: Self)
        ensures
            r.data@ == data@,
    {
        DataTransactionType2 { data }
    }
}

impl DataTransactionType6 {
    /// Creates a fresh federation co-signing pair, stores the secret half
    /// under the federation key, and returns the public half as a payload.
    pub fn generate(db: &mut sled::Db) -> (r: Result<Self, NodeError>)
        ensures
            match r {
                Ok(d) => d.federated_pk@.len() == 33 && exists|k: Seq<u8>|
                    #![auto]
                    sk_ok(k) && d.federated_pk@ == pk_of(k) && db_view(*final(db)) == db_view(
                        *old(db),
                    ).insert(key_federated(), k),
                Err(e) => e == NodeError::StorageFailure,
            },
    {
        let (federated_sk, federated_pk) = new_pair();
        let key = key_federated_bytes();
        match keyvalue::insert(db, key.as_slice(), federated_sk.as_slice()) {
            Ok(()) => {
                proof {
                    assert(sk_ok(federated_sk@) && federated_pk@ == pk_of(federated_sk@)
                        && db_view(*db) == db_view(*old(db)).insert(key_federated(), federated_sk@));
                }
                Ok(DataTransactionType6 { federated_pk })
            },
            Err(_) => Err(NodeError::StorageFailure),
        }
    }
}

/// Reads the local secret key from the store: the value under the
/// `secret_key` entry, when it is present and secp256k1 accepts it.
pub fn local_secret_key(db: &sled::Db) -> (r: Result<Vec<u8>, NodeError>)
    ensures
        match r {
            Ok(sk) => db_view(*db).contains_key(key_secret()) && sk@ == db_view(*db)[key_secret()]
                && sk_ok(sk@),
            Err(e) => e == NodeError::StorageFailure || e == NodeError::MissingLocalKey,
        },
{
    let key = key_secret_bytes();
    match keyvalue::get(db, key.as_slice()) {
        Ok(Some(sk)) => {
            if secret_key_ok(sk.as_slice()) {
                Ok(sk)
            } else {
                Err(NodeError::MissingLocalKey)
            }
        },
        Ok(None) => Err(NodeError::MissingLocalKey),
        Err(e) => Err(e),
    }
}

/// What every successfully generated transaction promises: well-formed, built
/// from the stored secret key, and authentically signed over its payload.
pub open spec fn generated_tx_ok(tx: Transaction, pre: Map<Seq<u8>, Seq<u8>>) -> bool {
    &&& tx_wf(tx@)
    &&& pre.contains_key(key_secret())
    &&& sk_ok(pre[key_secret()])
    &&& tx.pk@ == pk_of(pre[key_secret()])
    &&& tx.signature@ == sig_of(tx_signing_bytes(tx.timestamp, tx.data@), pre[key_secret()])
    &&& sig_valid(tx_signing_bytes(tx.timestamp, tx.data@), tx.pk@, tx.signature@)
}

impl Transaction {
    /// Builds and signs an *initialize-federation-key* transaction.  The only
    /// supported argument-free transaction type is 6.
    pub fn generate(transaction_type: u32, db: &mut sled::Db) -> (r: Result<Transaction, NodeError>)
        requires
            transaction_type == 6,
        ensures
            match r {
                Ok(tx) => {
                    &&& generated_tx_ok(tx, db_view(*old(db)))
                    &&& tx.data@ matches TransactionDataView::Type6 { federated_pk } && exists|
                        k: Seq<u8>,
                    |
                        #![auto]
                        sk_ok(k) && federated_pk == pk_of(k) && db_view(*final(db)) == db_view(
                            *old(db),
                        ).insert(key_federated(), k)
                    &&& tx.balance_variation == i64::MAX
                },
                Err(e) => e == NodeError::StorageFailure || e == NodeError::MissingLocalKey,
            },
    {
        let timestamp = clock::now_timestamp();
        let sk = local_secret_key(db)?;
        let pk = generate_public_key(sk.as_slice());
        let payload = match DataTransactionType6::generate(db) {
            Ok(p) => p,
            Err(e) => {
                return Err(e);
            },
        };
        proof {
            let k = choose|k: Seq<u8>|
                #![auto]
                sk_ok(k) && payload.federated_pk@ == pk_of(k) && db_view(*db) == db_view(
                    *old(db),
                ).insert(key_federated(), k);
            assert(sk_ok(k) && payload.federated_pk@ == pk_of(k) && db_view(*db) == db_view(
                *old(db),
            ).insert(key_federated(), k));
        }
        let data = TransactionData::Type6(payload);
        let balance_variation: i64 = i64::MAX;
        let signing = transaction_signing_bytes(timestamp, &data);
        let signature = new_signature(signing.as_slice(), sk.as_slice());
        Ok(Transaction { timestamp, pk, data, balance_variation, signature })
    }

    /// Builds and signs a *record-arbitrary-data* transaction carrying
    /// `data`.  The only supported byte-vector transaction type is 2.
    pub fn generate_with_vec(transaction_type: u32, data: Vec<u8>, db: &sled::Db) -> (r: Result<
        Transaction,
        NodeError,
    >)
        requires
            transaction_type == 2,
        ensures
            match r {
                Ok(tx) => {
                    &&& generated_tx_ok(tx, db_view(*db))
                    &&& tx.data@ matches TransactionDataView::Type2 { data: d } && d == data@
                    &&& tx.balance_variation == 1
                },
                Err(e) => e == NodeError::StorageFailure || e == NodeError::MissingLocalKey || e
                    == NodeError::MalformedPayload,
            },
    {
        if (data.len() as u64) > u64::MAX - 9 {
            return Err(NodeError::MalformedPayload);
        }
        let timestamp = clock::now_timestamp();
        let sk = local_secret_key(db)?;
        let pk = generate_public_key(sk.as_slice());
        let data = TransactionData::Type2(DataTransactionType2::generate(data));
        let balance_variation: i64 = 1;
        let signing = transaction_signing_bytes(timestamp, &data);
        let signature = new_signature(signing.as_slice(), sk.as_slice());
        Ok(Transaction { timestamp, pk, data, balance_variation, signature })
    }

    /// Builds and signs a *transfer-value* transaction moving `value` to the
    /// public key derived from the recipient's identifying bytes.  The
    /// sender's own balance variation is `value + 1`.  The only supported
    /// transaction type here is 7.
    pub fn generate_vec_and_i64(
        transaction_type: u32,
        recipient_bytes: Vec<u8>,
        value: i64,
        db: &sled::Db,
    ) -> (r: Result<Transaction, NodeError>)
        requires
            transaction_type == 7,
            value < i64::MAX,
        ensures
            match r {
                Ok(tx) => {
                    &&& generated_tx_ok(tx, db_view(*db))
                    &&& tx.data@ matches TransactionDataView::Type7 {
                        recipient_pk,
                        balance_variation,
                    } && recipient_pk == pk_of(recipient_bytes@) && balance_variation == value
                    &&& tx.balance_variation == value + 1
                },
                Err(e) => e == NodeError::StorageFailure || e == NodeError::MissingLocalKey || e
                    == NodeError::MalformedPayload,
            },
            r == Err::<Transaction, NodeError>(NodeError::MalformedPayload) <==> !sk_ok(
                recipient_bytes@,
            ),
    {
        if !secret_key_ok(recipient_bytes.as_slice()) {
            return Err(NodeError::MalformedPayload);
        }
        let timestamp = clock::now_timestamp();
        let sk = local_secret_key(db)?;
        let pk = generate_public_key(sk.as_slice());
        let recipient_pk = generate_public_key(recipient_bytes.as_slice());
        let data = TransactionData::Type7(
            DataTransactionType7 { recipient_pk, balance_variation: value },
        );
        let balance_variation: i64 = value + 1;
        let signing = transaction_signing_bytes(timestamp, &data);
        let signature = new_signature(signing.as_slice(), sk.as_slice());
        Ok(Transaction { timestamp, pk, data, balance_variation, signature })
    }

    /// A field-wise copy of the transaction.
    pub fn duplicate(&self) -> (r: Transaction)
        ensures
            r@ == self@,
    {
        Transaction {
            timestamp: self.timestamp,
            pk: copy_bytes(&self.pk),
            data: match &self.data {
                TransactionData::Type1(p) => TransactionData::Type1(
                    DataTransactionType1 { child_pk: copy_bytes(&p.child_pk) },
                ),
                TransactionData::Type2(p) => TransactionData::Type2(
                    DataTransactionType2 { data: copy_bytes(&p.data) },
                ),
                TransactionData::Type6(p) => TransactionData::Type6(
                    DataTransactionType6 { federated_pk: copy_bytes(&p.federated_pk) },
                ),
                TransactionData::Type7(p) => TransactionData::Type7(
                    DataTransactionType7 {
                        recipient_pk: copy_bytes(&p.recipient_pk),
                        balance_variation: p.balance_variation,
                    },
                ),
            },
            balance_variation: self.balance_variation,
            signature: copy_bytes(&self.signature),
        }
    }

    /// Checks the transaction's own signature: the stored 64-byte signature
    /// must authenticate the timestamp and payload under the issuer's key.
    pub fn verify(&self) -> (r: bool)
        ensures
            r == sig_valid(
                tx_signing_bytes(self.timestamp, self.data@),
                self@.pk,
                self@.signature,
            ),
    {
        let signing = transaction_signing_bytes(self.timestamp, &self.data);
        verify_signature(signing.as_slice(), self.pk.as_slice(), self.signature.as_slice())
    }
}

/// Runtime check of a transaction's structural well-formedness.
pub fn tx_check_wf(tx: &Transaction) -> (r: bool)
    ensures
        r == tx_wf(tx@),
{
    if tx.pk.len() != 33 || tx.signature.len() != 64 {
        return false;
    }
    match &tx.data {
        TransactionData::Type1(p) => p.child_pk.len() == 33,
        TransactionData::Type2(p) => (p.data.len() as u64) <= u64::MAX - 9,
        TransactionData::Type6(p) => p.federated_pk.len() == 33,
        TransactionData::Type7(p) => p.recipient_pk.len() == 33,
    }
}

} // verus!
