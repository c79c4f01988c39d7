//! Message envelopes and the authenticated dispatch engine.
//!
//! An inbound envelope is verified against the peer registry and then
//! dispatched by type.  Message type codes: 1 = handshake, 2 =
//! neighbor-list request, 3 = transaction propagation, 4 = block
//! propagation, 5 = chain-sync request.  A handshake from an unknown peer is
//! the one message dispatched without verification, since a handshake is the
//! only way a peer becomes known.

use vstd::prelude::*;
use crate::codec::{
    enc_bytes_spec,
    i64_le,
    i64_dec_str,
    u64_le,
    dec_bytes_at,
    dec_i64_at,
    dec_u64_at,
    enc_bytes,
    enc_i64,
    enc_u64,
    enc_i64_dec_str,
    dec_bytes,
    dec_i64,
    dec_u64,
    copy_bytes,
    bytes_range,
};
use crate::errors::NodeError;
use crate::keyvalue::db_view;
use crate::storekeys::key_secret;
use crate::signature::{sk_ok, pk_of, sig_of, sig_valid, new_signature, verify_signature, generate_public_key};
use crate::transactions::{
    Transaction,
    TransactionView,
    tx_enc,
    dec_tx_at,
    decode_transaction,
    encode_transaction,
    local_secret_key,
};
use crate::block::{
    Block,
    BlockView,
    block_enc,
    dec_block_at,
    decode_block,
    NodeState,
    LocalBlock,
    tip,
    walk_back_ok,
    MEMPOOL_THRESHOLD,
};
use crate::neighbors::{Node, NodeView, nb_lookup, neighbors_of_store};
use crate::responses::{Response, ResponseView, ResponseDataView, decode_response, dec_response_at, response_enc};
use crate::clock;

verus! {

// ---------------------------------------------------------------------------
// Data model
// ---------------------------------------------------------------------------

/// Payload of a handshake: the sender's public key.
pub struct DataMessageType1 {
    pub public_key: Vec<u8>,
}

/// Payload of a neighbor-list request (no fields; currently a stub).
pub struct DataMessageType2 {
}

/// Payload of a transaction propagation.
pub struct DataMessageType3 {
    pub transaction: Transaction,
}

/// Payload of a block propagation.
pub struct DataMessageType4 {
    pub block: Block,
}

/// Payload of a chain-sync request: the requester's last known header, or
/// empty for "from genesis".
pub struct DataMessageType5 {
    pub until_header: Vec<u8>,
}

/// The tagged payload of a message.
pub enum MessageData {
    MessageType1(DataMessageType1),
    MessageType2(DataMessageType2),
    MessageType3(DataMessageType3),
    MessageType4(DataMessageType4),
    MessageType5(DataMessageType5),
}

/// A signed message envelope.
pub struct Message {
    pub timestamp: i64,
    pub data: MessageData,
    pub signature: Vec<u8>,
}

/// A wire packet: a request or a reply.
pub enum Packet {
    Message(Message),
    Response(Response),
}

/// Mathematical model of a message payload.
pub enum MessageDataView {
    MessageType1 { public_key: Seq<u8> },
    MessageType2,
    MessageType3 { transaction: TransactionView },
    MessageType4 { block: BlockView },
    MessageType5 { until_header: Seq<u8> },
}

/// Mathematical model of a message envelope.
pub struct MessageView {
    pub timestamp: i64,
    pub data: MessageDataView,
    pub signature: Seq<u8>,
}

impl View for MessageData {
    type V = MessageDataView;

    open spec fn view(&self) -> MessageDataView {
        match self {
            MessageData::MessageType1(d) => MessageDataView::MessageType1 {
                public_key: d.public_key@,
            },
            MessageData::MessageType2(_) => MessageDataView::MessageType2,
            MessageData::MessageType3(d) => MessageDataView::MessageType3 {
                transaction: d.transaction@,
            },
            MessageData::MessageType4(d) => MessageDataView::MessageType4 { block: d.block@ },
            MessageData::MessageType5(d) => MessageDataView::MessageType5 {
                until_header: d.until_header@,
            },
        }
    }
}

impl View for Message {
    type V = MessageView;

    open spec fn view(&self) -> MessageView {
        MessageView { timestamp: self.timestamp, data: self.data@, signature: self.signature@ }
    }
}

// ---------------------------------------------------------------------------
// Canonical encoding
// ---------------------------------------------------------------------------

/// Canonical encoding of a message payload: the message type code, then the
/// fields.
pub open spec fn mdata_enc(d: MessageDataView) -> Seq<u8> {
    match d {
        MessageDataView::MessageType1 { public_key } => u64_le(1) + enc_bytes_spec(public_key),
        MessageDataView::MessageType2 => u64_le(2),
        MessageDataView::MessageType3 { transaction } => u64_le(3) + tx_enc(transaction),
        MessageDataView::MessageType4 { block } => u64_le(4) + block_enc(block),
        MessageDataView::MessageType5 { until_header } => u64_le(5) + enc_bytes_spec(
            until_header,
        ),
    }
}

/// The bytes a message's signature authenticates.
pub open spec fn msg_signing_bytes(timestamp: i64, d: MessageDataView) -> Seq<u8> {
    i64_dec_str(timestamp as int) + mdata_enc(d)
}

/// Canonical encoding of a whole message envelope.
pub open spec fn message_enc(m: MessageView) -> Seq<u8> {
    i64_le(m.timestamp) + enc_bytes_spec(mdata_enc(m.data)) + enc_bytes_spec(m.signature)
}

/// Canonical encoding of a packet: a one-byte kind tag, then the envelope.
pub open spec fn packet_enc_message(m: MessageView) -> Seq<u8> {
    seq![1u8] + message_enc(m)
}

/// Canonical encoding of a reply packet.
pub open spec fn packet_enc_response(r: ResponseView) -> Seq<u8> {
    seq![2u8] + response_enc(r)
}

/// Parse of a message payload at `pos`.
pub open spec fn dec_mdata_at(s: Seq<u8>, pos: int) -> Option<(MessageDataView, int)> {
    match dec_u64_at(s, pos) {
        Some((code, p1)) => if code == 1 {
            match dec_bytes_at(s, p1) {
                Some((pk, p2)) => Some((MessageDataView::MessageType1 { public_key: pk }, p2)),
                None => None,
            }
        } else if code == 2 {
            Some((MessageDataView::MessageType2, p1))
        } else if code == 3 {
            match dec_tx_at(s, p1) {
                Some((t, p2)) => Some((MessageDataView::MessageType3 { transaction: t }, p2)),
                None => None,
            }
        } else if code == 4 {
            match dec_block_at(s, p1) {
                Some((b, p2)) => Some((MessageDataView::MessageType4 { block: b }, p2)),
                None => None,
            }
        } else if code == 5 {
            match dec_bytes_at(s, p1) {
                Some((h, p2)) => Some((MessageDataView::MessageType5 { until_header: h }, p2)),
                None => None,
            }
        } else {
            None
        },
        None => None,
    }
}

/// Parse of a message envelope at `pos`.
pub open spec fn dec_message_at(s: Seq<u8>, pos: int) -> Option<(MessageView, int)> {
    match dec_i64_at(s, pos) {
        Some((ts, p1)) => match dec_bytes_at(s, p1) {
            Some((payload, p2)) => match dec_mdata_at(payload, 0) {
                Some((d, q)) => if q == payload.len() {
                    match dec_bytes_at(s, p2) {
                        Some((sig, p3)) => Some(
                            (MessageView { timestamp: ts, data: d, signature: sig }, p3),
                        ),
                        None => None,
                    }
                } else {
                    None
                },
                None => None,
            },
            None => None,
        },
        None => None,
    }
}

/// Appends the canonical encoding of `d` to `out`.
pub fn encode_mdata(d: &MessageData, out: &mut Vec<u8>)
    ensures
        final(out)@ == old(out)@ + mdata_enc(d@),
{
    match d {
        MessageData::MessageType1(p) => {
            enc_u64(out, 1);
            enc_bytes(out, p.public_key.as_slice());
        },
        MessageData::MessageType2(_) => {
            enc_u64(out, 2);
        },
        MessageData::MessageType3(p) => {
            enc_u64(out, 3);
            encode_transaction(&p.transaction, out);
        },
        MessageData::MessageType4(p) => {
            enc_u64(out, 4);
            p.block.encode(out);
        },
        MessageData::MessageType5(p) => {
            enc_u64(out, 5);
            enc_bytes(out, p.until_header.as_slice());
        },
    }
    proof {
        assert(out@ =~= old(out)@ + mdata_enc(d@));
    }
}

/// The bytes a message's signature must authenticate, as a fresh vector.
pub fn msg_signing_bytes_exec(timestamp: i64, d: &MessageData) -> (r: Vec<u8>)
    ensures
        r@ == msg_signing_bytes(timestamp, d@),
{
    let mut out: Vec<u8> = Vec::new();
    enc_i64_dec_str(&mut out, timestamp);
    encode_mdata(d, &mut out);
    out
}

impl Message {
    /// Appends the canonical encoding of the envelope to `out`.
    pub fn encode(&self, out: &mut Vec<u8>)
        ensures
            final(out)@ == old(out)@ + message_enc(self@),
    {
        enc_i64(out, self.timestamp);
        let mut payload: Vec<u8> = Vec::new();
        encode_mdata(&self.data, &mut payload);
        enc_bytes(out, payload.as_slice());
        enc_bytes(out, self.signature.as_slice());
        proof {
            assert(out@ =~= old(out)@ + message_enc(self@));
        }
    }
}

impl Packet {
    /// The canonical encoding of the packet as a fresh vector.
    pub fn to_bytes(&self) -> (r: Vec<u8>)
        ensures
            match self {
                Packet::Message(m) => r@ == packet_enc_message(m@),
                Packet::Response(resp) => r@ == packet_enc_response(resp@),
            },
    {
        let mut out: Vec<u8> = Vec::new();
        match self {
            Packet::Message(m) => {
                out.push(1u8);
                m.encode(&mut out);
                proof {
                    assert(out@ =~= packet_enc_message(m@));
                }
            },
            Packet::Response(resp) => {
                out.push(2u8);
                resp.encode(&mut out);
                proof {
                    assert(out@ =~= packet_enc_response(resp@));
                }
            },
        }
        out
    }
}

/// Reads a message payload at `pos`.
pub fn decode_mdata(buf: &[u8], pos: usize) -> (r: Option<(MessageData, usize)>)
    ensures
        match r {
            Some((d, p)) => dec_mdata_at(buf@, pos as int) == Some((d@, p as int)),
            None => dec_mdata_at(buf@, pos as int) is None,
        },
{
    let (code, p1) = match dec_u64(buf, pos) {
        Some(x) => x,
        None => {
            return None;
        },
    };
    if code == 1 {
        match dec_bytes(buf, p1) {
            Some((pk, p2)) => Some(
                (MessageData::MessageType1(DataMessageType1 { public_key: pk }), p2),
            ),
            None => None,
        }
    } else if code == 2 {
        Some((MessageData::MessageType2(DataMessageType2 {}), p1))
    } else if code == 3 {
        match decode_transaction(buf, p1) {
            Some((t, p2)) => Some(
                (MessageData::MessageType3(DataMessageType3 { transaction: t }), p2),
            ),
            None => None,
        }
    } else if code == 4 {
        match decode_block(buf, p1) {
            Some((b, p2)) => Some((MessageData::MessageType4(DataMessageType4 { block: b }), p2)),
            None => None,
        }
    } else if code == 5 {
        match dec_bytes(buf, p1) {
            Some((h, p2)) => Some(
                (MessageData::MessageType5(DataMessageType5 { until_header: h }), p2),
            ),
            None => None,
        }
    } else {
        None
    }
}

/// Reads a message envelope at `pos`.
pub fn decode_message(buf: &[u8], pos: usize) -> (r: Option<(Message, usize)>)
    ensures
        match r {
            Some((m, p)) => dec_message_at(buf@, pos as int) == Some((m@, p as int)),
            None => dec_message_at(buf@, pos as int) is None,
        },
{
    let (ts, p1) = match dec_i64(buf, pos) {
        Some(x) => x,
        None => {
            return None;
        },
    };
    let (payload, p2) = match dec_bytes(buf, p1) {
        Some(x) => x,
        None => {
            return None;
        },
    };
    let (d, q) = match decode_mdata(payload.as_slice(), 0) {
        Some(x) => x,
        None => {
            return None;
        },
    };
    if q != payload.len() {
        return None;
    }
    let (sig, p3) = match dec_bytes(buf, p2) {
        Some(x) => x,
        None => {
            return None;
        },
    };
    Some((Message { timestamp: ts, data: d, signature: sig }, p3))
}

// ---------------------------------------------------------------------------
// Generation
// ---------------------------------------------------------------------------

impl DataMessageType1 {
    /// Builds a handshake payload carrying this node's own public key.
    pub fn generate(db: &sled::Db) -> (r: Result<DataMessageType1, NodeError>)
        ensures
            match r {
                Ok(d) => db_view(*db).contains_key(key_secret()) && sk_ok(
                    db_view(*db)[key_secret()],
                ) && d.public_key@ == pk_of(db_view(*db)[key_secret()]),
                Err(e) => e == NodeError::StorageFailure || e == NodeError::MissingLocalKey,
            },
    {
        let sk = local_secret_key(db)?;
        let public_key = generate_public_key(sk.as_slice());
        Ok(DataMessageType1 { public_key })
    }
}

impl DataMessageType3 {
    /// Wraps a transaction as a propagation payload.
    pub fn generate(transaction: Transaction) -> (r: DataMessageType3)
        ensures
            r.transaction@ == transaction@,
    {
        DataMessageType3 { transaction }
    }
}

impl DataMessageType4 {
    /// Wraps a block as a propagation payload.
    pub fn generate(block: Block) -> (r: DataMessageType4)
        ensures
            r.block@ == block@,
    {
        DataMessageType4 { block }
    }
}

impl DataMessageType5 {
    /// Builds a chain-sync request carrying this node's tip header.
    pub fn generate(state: &NodeState) -> (r: DataMessageType5)
        ensures
            r.until_header@ == tip(state.blocks_view()),
    {
        DataMessageType5 { until_header: state.tip_header() }
    }
}

/// What every successfully generated message promises: signed with the
/// stored secret key over the decimal timestamp and the payload encoding.
pub open spec fn generated_message_ok(m: Message, pre: Map<Seq<u8>, Seq<u8>>) -> bool {
    &&& pre.contains_key(key_secret())
    &&& sk_ok(pre[key_secret()])
    &&& m.signature@ == sig_of(msg_signing_bytes(m.timestamp, m.data@), pre[key_secret()])
    &&& sig_valid(
        msg_signing_bytes(m.timestamp, m.data@),
        pk_of(pre[key_secret()]),
        m.signature@,
    )
}

impl Message {
    /// Builds and signs a handshake (type 1) or chain-sync request (type 5).
    pub fn generate(message_type: u32, state: &NodeState) -> (r: Result<Message, NodeError>)
        requires
            message_type == 1 || message_type == 5,
        ensures
            match r {
                Ok(m) => {
                    &&& generated_message_ok(m, state.store())
                    &&& (message_type == 1 ==> (m.data@ matches MessageDataView::MessageType1 {
                        public_key,
                    } && public_key == pk_of(state.store()[key_secret()])))
                    &&& (message_type == 5 ==> (m.data@ matches MessageDataView::MessageType5 {
                        until_header,
                    } && until_header == tip(state.blocks_view())))
                },
                Err(e) => e == NodeError::StorageFailure || e == NodeError::MissingLocalKey,
            },
    {
        let data = if message_type == 1 {
            match DataMessageType1::generate(state.store_ref()) {
                Ok(d) => MessageData::MessageType1(d),
                Err(e) => {
                    return Err(e);
                },
            }
        } else {
            MessageData::MessageType5(DataMessageType5::generate(state))
        };
        let timestamp = clock::now_timestamp();
        let sk = local_secret_key(state.store_ref())?;
        let signing = msg_signing_bytes_exec(timestamp, &data);
        let signature = new_signature(signing.as_slice(), sk.as_slice());
        Ok(Message { timestamp, data, signature })
    }

    /// Builds and signs a transaction propagation (type 3).
    pub fn generate_with_transaction(message_type: u32, transaction: Transaction, state: &NodeState) -> (r:
        Result<Message, NodeError>)
        requires
            message_type == 3,
        ensures
            match r {
                Ok(m) => generated_message_ok(m, state.store()) && (m.data@
                    matches MessageDataView::MessageType3 { transaction: t } && t
                    == transaction@),
                Err(e) => e == NodeError::StorageFailure || e == NodeError::MissingLocalKey,
            },
    {
        let data = MessageData::MessageType3(DataMessageType3::generate(transaction));
        let timestamp = clock::now_timestamp();
        let sk = local_secret_key(state.store_ref())?;
        let signing = msg_signing_bytes_exec(timestamp, &data);
        let signature = new_signature(signing.as_slice(), sk.as_slice());
        Ok(Message { timestamp, data, signature })
    }

    /// Builds and signs a block propagation (type 4).
    pub fn generate_with_block(message_type: u32, block: Block, state: &NodeState) -> (r: Result<
        Message,
        NodeError,
    >)
        requires
            message_type == 4,
        ensures
            match r {
                Ok(m) => generated_message_ok(m, state.store()) && (m.data@
                    matches MessageDataView::MessageType4 { block: b } && b == block@),
                Err(e) => e == NodeError::StorageFailure || e == NodeError::MissingLocalKey,
            },
    {
        let data = MessageData::MessageType4(DataMessageType4::generate(block));
        let timestamp = clock::now_timestamp();
        let sk = local_secret_key(state.store_ref())?;
        let signing = msg_signing_bytes_exec(timestamp, &data);
        let signature = new_signature(signing.as_slice(), sk.as_slice());
        Ok(Message { timestamp, data, signature })
    }
}

// ---------------------------------------------------------------------------
// Verification and dispatch
// ---------------------------------------------------------------------------

/// The verification decision for an envelope from `src` against a registry:
/// unknown peers are rejected as such, known peers by their stored key.
pub open spec fn verify_spec(m: MessageView, registry: Option<Seq<(Seq<u8>, NodeView)>>, src: Seq<
    u8,
>) -> Result<(), NodeError> {
    match registry {
        None => Err(NodeError::MalformedPayload),
        Some(reg) => match nb_lookup(reg, src) {
            None => Err(NodeError::UnknownPeer),
            Some(node) => if sig_valid(msg_signing_bytes(m.timestamp, m.data), node.pk, m.signature) {
                Ok(())
            } else {
                Err(NodeError::AuthenticationFailure)
            },
        },
    }
}

/// Law: envelope verification is a function of the envelope and the
/// registry alone, so re-verifying an already-verified envelope against the
/// same registry state yields the same accept or reject decision.
pub proof fn lemma_verify_idempotent(
    m1: MessageView,
    m2: MessageView,
    r1: Option<Seq<(Seq<u8>, NodeView)>>,
    r2: Option<Seq<(Seq<u8>, NodeView)>>,
    src: Seq<u8>,
)
    requires
        m1 == m2,
        r1 == r2,
    ensures
        verify_spec(m1, r1, src) == verify_spec(m2, r2, src),
{
}

impl Message {
    /// Verifies the envelope against the peer registry: the sender address
    /// must be registered and the signature must authenticate the timestamp
    /// and payload under the registered key.
    pub fn verify(&self, src: &[u8], state: &mut NodeState) -> (r: Result<(), NodeError>)
        requires
            old(state).wf(),
        ensures
            final(state).wf(),
            final(state).blocks_view() == old(state).blocks_view(),
            final(state).mempool_view() == old(state).mempool_view(),
            final(state).is_assembler() == old(state).is_assembler(),
            r != Err::<(), NodeError>(NodeError::StorageFailure)
                ==> neighbors_of_store(final(state).store()) == neighbors_of_store(
                old(state).store(),
            ),
            verify_spec(self@, neighbors_of_store(final(state).store()), src@) is Ok ==> (r is Ok
                || r == Err::<(), NodeError>(NodeError::StorageFailure)),
            verify_spec(self@, neighbors_of_store(final(state).store()), src@) matches Err(e2)
                ==> (r == Err::<(), NodeError>(e2) || r == Err::<(), NodeError>(
                NodeError::StorageFailure,
            )),
            match r {
                Ok(()) => verify_spec(
                    self@,
                    neighbors_of_store(final(state).store()),
                    src@,
                ) is Ok,
                Err(e) => e == NodeError::StorageFailure || verify_spec(
                    self@,
                    neighbors_of_store(final(state).store()),
                    src@,
                ) == Err::<(), NodeError>(e),
            },
    {
        match state.neighbors_get(src) {
            Ok(Some(node)) => {
                let signing = msg_signing_bytes_exec(self.timestamp, &self.data);
                if verify_signature(
                    signing.as_slice(),
                    node.pk.as_slice(),
                    self.signature.as_slice(),
                ) {
                    Ok(())
                } else {
                    Err(NodeError::AuthenticationFailure)
                }
            },
            Ok(None) => Err(NodeError::UnknownPeer),
            Err(NodeError::MalformedPayload) => Err(NodeError::MalformedPayload),
            Err(_) => Err(NodeError::StorageFailure),
        }
    }

    /// Verifies and dispatches the envelope.  A handshake from an unknown
    /// peer is still dispatched; every other verification failure is
    /// answered with an error response.  Returns the response to send back
    /// and, when a block was closed by this dispatch, the block to
    /// broadcast.
    pub fn execute(&self, src: &[u8], state: &mut NodeState) -> (r: Result<
        (Response, Option<Block>),
        NodeError,
    >)
        requires
            old(state).wf(),
            src@.len() + 9 <= u64::MAX,
        ensures
            final(state).wf(),
            final(state).is_assembler() == old(state).is_assembler(),
            ({
                let decision = verify_spec(
                    self@,
                    neighbors_of_store(old(state).store()),
                    src@,
                );
                !(decision is Ok || self.data@ is MessageType1) ==> final(state).blocks_view()
                    == old(state).blocks_view() && final(state).mempool_view() == old(
                    state,
                ).mempool_view()
            }),
            r is Ok ==> (self.data@ matches MessageDataView::MessageType1 { public_key }
                ==> neighbors_of_store(final(state).store()) is Some && nb_lookup(
                neighbors_of_store(final(state).store())->Some_0,
                src@,
            ) == Some(NodeView { pk: public_key, is_validator: false })),
            ({
                let decision = verify_spec(
                    self@,
                    neighbors_of_store(old(state).store()),
                    src@,
                );
                !(decision is Ok || self.data@ is MessageType1) ==> (r is Err && (r->Err_0
                    == decision->Err_0 || r->Err_0 == NodeError::StorageFailure))
            }),
            match r {
                Ok(out) => ({
                    let resp = out.0;
                    let closed = out.1;
                    let pre_blocks = old(state).blocks_view();
                    let post_blocks = final(state).blocks_view();
                    let pre_pool = old(state).mempool_view();
                    let post_pool = final(state).mempool_view();
                    &&& (self.data@ is MessageType1 ==> closed is None && (resp.data@
                        matches ResponseDataView::ResponseType2 { pk }
                        && final(state).store().contains_key(key_secret())
                        && pk == pk_of(final(state).store()[key_secret()])))
                    &&& (self.data@ is MessageType2 ==> resp.data@ is ResponseType1
                        && closed is None && post_blocks == pre_blocks && post_pool == pre_pool)
                    &&& (self.data@ matches MessageDataView::MessageType3 { transaction } ==> ({
                        let admitted = crate::merkle::mempool_upsert(pre_pool, transaction);
                        ||| (resp.data@ is ResponseType1 && (match closed {
                            Some(b) => old(state).is_assembler() && admitted.len()
                                == MEMPOOL_THRESHOLD && post_pool
                                == Seq::<TransactionView>::empty() && post_blocks
                                == pre_blocks.push(b@),
                            None => post_pool == admitted && post_blocks == pre_blocks
                                && !(old(state).is_assembler() && admitted.len()
                                == MEMPOOL_THRESHOLD),
                        }))
                        ||| (resp.data@ is ErrorResponse && closed is None && post_blocks
                            == pre_blocks)
                    }))
                    &&& (self.data@ matches MessageDataView::MessageType4 { block } ==> closed
                        is None && ((resp.data@ is ResponseType1 && post_blocks
                        == pre_blocks.push(block)) || (resp.data@ is ErrorResponse && post_blocks
                        == pre_blocks)))
                    &&& (self.data@ matches MessageDataView::MessageType5 { until_header }
                        ==> closed is None && post_blocks == pre_blocks && post_pool == pre_pool
                        && (resp.data@ matches ResponseDataView::ResponseType3 { blocks: bv }
                        && walk_back_ok(post_blocks, tip(post_blocks), until_header, bv)))
                }),
                Err(_) => true,
            },
    {
        let verdict = self.verify(src, state);
        let dispatch = match verdict {
            Ok(()) => true,
            Err(NodeError::UnknownPeer) => match &self.data {
                MessageData::MessageType1(_) => true,
                _ => false,
            },
            Err(_) => false,
        };
        if !dispatch {
            let e = match verdict {
                Ok(()) => NodeError::AuthenticationFailure,
                Err(e) => e,
            };
            return Err(e);
        }
        match &self.data {
            MessageData::MessageType1(d) => {
                if (d.public_key.len() as u64) > u64::MAX - 9 {
                    return Err(NodeError::MalformedPayload);
                }
                let node = Node { pk: copy_bytes(&d.public_key), is_validator: false };
                let src_key = bytes_range(src, 0, src.len());
                proof {
                    assert(src_key@ =~= src@);
                }
                match state.neighbors_add(src_key, node) {
                    Ok(()) => {},
                    Err(e) => {
                        return Err(e);
                    },
                }
                match Response::generate(2, state.store_ref()) {
                    Ok(resp) => Ok((resp, None)),
                    Err(e) => Err(e),
                }
            },
            MessageData::MessageType2(_) => {
                match Response::generate(1, state.store_ref()) {
                    Ok(resp) => Ok((resp, None)),
                    Err(e) => Err(e),
                }
            },
            MessageData::MessageType3(d) => {
                match LocalBlock::insert_transaction(d.transaction.duplicate(), state) {
                    Ok(closed) => match Response::generate(1, state.store_ref()) {
                        Ok(resp) => Ok((resp, closed)),
                        Err(e) => Err(e),
                    },
                    Err(_) => match Response::generate(500, state.store_ref()) {
                        Ok(resp) => Ok((resp, None)),
                        Err(e) => Err(e),
                    },
                }
            },
            MessageData::MessageType4(d) => {
                // Propagated blocks are validated against local state before
                // they are persisted -- the flagged hardening decision
                // described on `persist_incoming`; a rejected block is
                // answered with the error marker.
                match state.persist_incoming(&d.block) {
                    Ok(()) => match Response::generate(1, state.store_ref()) {
                        Ok(resp) => Ok((resp, None)),
                        Err(e) => Err(e),
                    },
                    Err(_) => match Response::generate(500, state.store_ref()) {
                        Ok(resp) => Ok((resp, None)),
                        Err(e) => Err(e),
                    },
                }
            },
            MessageData::MessageType5(d) => {
                let tip_header = state.tip_header();
                let blocks = match state.walk_back(
                    tip_header.as_slice(),
                    d.until_header.as_slice(),
                ) {
                    Ok(v) => v,
                    Err(e) => {
                        return Err(e);
                    },
                };
                match Response::generate_with_block_vector(3, blocks, state.store_ref()) {
                    Ok(resp) => Ok((resp, None)),
                    Err(e) => Err(e),
                }
            },
        }
    }
}

// ---------------------------------------------------------------------------
// The wire entry point
// ---------------------------------------------------------------------------

/// Whether `bytes` are one complete wire packet: a kind tag followed by a
/// fully consumed envelope of that kind.
pub open spec fn packet_parses(bytes: Seq<u8>) -> bool {
    &&& bytes.len() > 0
    &&& ((bytes[0] == 1 && (match dec_message_at(bytes, 1) {
        Some((m, n)) => n == bytes.len(),
        None => false,
    })) || (bytes[0] == 2 && (match dec_response_at(bytes, 1) {
        Some((resp, n)) => n == bytes.len(),
        None => false,
    })))
}

/// What the node hands back to the transport after one inbound packet: an
/// optional reply to send to the source, and an optional freshly closed
/// block to broadcast to all registered peers.
pub struct HandleOutcome {
    pub reply: Option<Vec<u8>>,
    pub broadcast: Option<Block>,
}

/// Handles one inbound packet: decodes it, verifies and dispatches a
/// message (answering with an error response when verification or dispatch
/// fails), or acts on a response.  Undecodable bytes are rejected as
/// malformed.
pub fn handle_incoming(bytes: &[u8], src: &[u8], state: &mut NodeState) -> (r: Result<
    HandleOutcome,
    NodeError,
>)
    requires
        old(state).wf(),
        src@.len() + 9 <= u64::MAX,
    ensures
        final(state).wf(),
        final(state).is_assembler() == old(state).is_assembler(),
        !packet_parses(bytes@) ==> r == Err::<HandleOutcome, NodeError>(
            NodeError::MalformedPayload,
        ) && *final(state) == *old(state),
        r is Ok ==> packet_parses(bytes@),
        bytes@.len() > 0 && bytes@[0] == 1 ==> (r matches Ok(o) ==> (o.reply matches Some(rb)
            && exists|resp: ResponseView| #[trigger] rb@ == packet_enc_response(resp))),
        bytes@.len() > 0 && bytes@[0] == 2 ==> (r matches Ok(o) ==> o.reply is None
            && o.broadcast is None),
        bytes@.len() > 0 && bytes@[0] == 2 ==> final(state).mempool_view() == old(
            state,
        ).mempool_view(),
        ({
            let parsed = dec_message_at(bytes@, 1);
            bytes@.len() > 0 && bytes@[0] == 1 && parsed is Some && !(verify_spec(
                (parsed->Some_0).0,
                neighbors_of_store(old(state).store()),
                src@,
            ) is Ok || (parsed->Some_0).0.data is MessageType1) ==> final(state).blocks_view()
                == old(state).blocks_view() && final(state).mempool_view() == old(
                state,
            ).mempool_view()
        }),
{
    if bytes.len() == 0 {
        return Err(NodeError::MalformedPayload);
    }
    let tag = bytes[0];
    if tag == 1 {
        let (message, consumed) = match decode_message(bytes, 1) {
            Some(x) => x,
            None => {
                return Err(NodeError::MalformedPayload);
            },
        };
        if consumed != bytes.len() {
            return Err(NodeError::MalformedPayload);
        }
        let (response, broadcast) = match message.execute(src, state) {
            Ok(x) => x,
            Err(_) => {
                match Response::generate(500, state.store_ref()) {
                    Ok(resp) => (resp, None),
                    Err(e) => {
                        return Err(e);
                    },
                }
            },
        };
        let packet = Packet::Response(response);
        let reply_bytes = packet.to_bytes();
        proof {
            assert(packet matches Packet::Response(resp) && reply_bytes@ == packet_enc_response(
                resp@,
            ));
        }
        Ok(HandleOutcome { reply: Some(reply_bytes), broadcast })
    } else if tag == 2 {
        let (response, consumed) = match decode_response(bytes, 1) {
            Some(x) => x,
            None => {
                return Err(NodeError::MalformedPayload);
            },
        };
        if consumed != bytes.len() {
            return Err(NodeError::MalformedPayload);
        }
        match response.execute(src, state) {
            Ok(()) => Ok(HandleOutcome { reply: None, broadcast: None }),
            Err(e) => Err(e),
        }
    } else {
        Err(NodeError::MalformedPayload)
    }
}

} // verus!
