//! Response envelopes: the signed replies a node returns for inbound
//! messages, and what a node does when it receives one back.
//!
//! Response type codes: 1 = plain ack, 2 = handshake-ack (carries the
//! responder's public key), 3 = block vector (newest first on the wire),
//! 500 = error.

use vstd::prelude::*;
use crate::codec::{
    enc_bytes_spec,
    i64_le,
    i64_dec_str,
    u64_le,
    dec_bytes_at,
    dec_i64_at,
    dec_u64_at,
    enc_bytes,
    enc_i64,
    enc_u64,
    enc_i64_dec_str,
    dec_bytes,
    dec_i64,
    dec_u64,
    copy_bytes,
    items_enc,
    dec_items_at,
    lemma_dec_items_of_enc,
    lemma_items_enc_push,
    lemma_dec_u64_of_enc,
    lemma_dec_bytes_of_enc,
};
use crate::errors::NodeError;
use crate::keyvalue::db_view;
use crate::storekeys::key_secret;
use crate::signature::{sk_ok, pk_of, sig_of, sig_valid, new_signature, generate_public_key};
use crate::transactions::local_secret_key;
use crate::block::{
    Block,
    BlockView,
    block_wf,
    block_enc,
    dec_block_at,
    decode_block,
    lemma_dec_block_of_enc,
    NodeState,
};
use crate::clock;

verus! {

// ---------------------------------------------------------------------------
// Data model
// ---------------------------------------------------------------------------

/// Payload of a handshake-ack: the responder's public key.
pub struct Type2Data {
    pub pk: Vec<u8>,
}

/// Payload of a chain-sync reply: blocks, newest first.
pub struct Type3Data {
    pub blocks: Vec<Block>,
}

/// The tagged payload of a response.
pub enum ResponseData {
    ResponseType1,
    ResponseType2(Type2Data),
    ResponseType3(Type3Data),
    ErrorResponse,
}

/// A signed response envelope.
pub struct Response {
    pub timestamp: i64,
    pub data: ResponseData,
    pub signature: Vec<u8>,
}

/// Mathematical model of a response payload.
pub enum ResponseDataView {
    ResponseType1,
    ResponseType2 { pk: Seq<u8> },
    ResponseType3 { blocks: Seq<BlockView> },
    ErrorResponse,
}

/// Mathematical model of a response envelope.
pub struct ResponseView {
    pub timestamp: i64,
    pub data: ResponseDataView,
    pub signature: Seq<u8>,
}

impl View for ResponseData {
    type V = ResponseDataView;

    open spec fn view(&self) -> ResponseDataView {
        match self {
            ResponseData::ResponseType1 => ResponseDataView::ResponseType1,
            ResponseData::ResponseType2(d) => ResponseDataView::ResponseType2 { pk: d.pk@ },
            ResponseData::ResponseType3(d) => ResponseDataView::ResponseType3 {
                blocks: Seq::new(d.blocks@.len(), |i: int| d.blocks@[i]@),
            },
            ResponseData::ErrorResponse => ResponseDataView::ErrorResponse,
        }
    }
}

impl View for Response {
    type V = ResponseView;

    open spec fn view(&self) -> ResponseView {
        ResponseView { timestamp: self.timestamp, data: self.data@, signature: self.signature@ }
    }
}

/// Structural well-formedness of a response payload.
pub open spec fn rdata_wf(d: ResponseDataView) -> bool {
    match d {
        ResponseDataView::ResponseType1 => true,
        ResponseDataView::ResponseType2 { pk } => pk.len() + 9 <= u64::MAX,
        ResponseDataView::ResponseType3 { blocks } => blocks.len() <= u64::MAX && forall|i: int|
            0 <= i < blocks.len() ==> block_wf(#[trigger] blocks[i]),
        ResponseDataView::ErrorResponse => true,
    }
}

// ---------------------------------------------------------------------------
// Canonical encoding
// ---------------------------------------------------------------------------

/// Encoder of one block in a block vector.
pub open spec fn block_enc_fn() -> spec_fn(BlockView) -> Seq<u8> {
    |b: BlockView| block_enc(b)
}

/// Parser of one block in a block vector.
pub open spec fn block_dec_fn() -> spec_fn(Seq<u8>, int) -> Option<(BlockView, int)> {
    |ss: Seq<u8>, pp: int| dec_block_at(ss, pp)
}

/// Canonical encoding of a response payload: the response type code, then
/// the fields.
#[verifier::opaque]
pub open spec fn rdata_enc(d: ResponseDataView) -> Seq<u8> {
    match d {
        ResponseDataView::ResponseType1 => u64_le(1),
        ResponseDataView::ResponseType2 { pk } => u64_le(2) + enc_bytes_spec(pk),
        ResponseDataView::ResponseType3 { blocks } => u64_le(3) + u64_le(blocks.len() as u64)
            + items_enc(blocks, block_enc_fn()),
        ResponseDataView::ErrorResponse => u64_le(500),
    }
}

/// The bytes a response's signature authenticates.
pub open spec fn response_signing_bytes(timestamp: i64, d: ResponseDataView) -> Seq<u8> {
    i64_dec_str(timestamp as int) + rdata_enc(d)
}

/// Canonical encoding of a whole response envelope.
#[verifier::opaque]
pub open spec fn response_enc(r: ResponseView) -> Seq<u8> {
    i64_le(r.timestamp) + enc_bytes_spec(rdata_enc(r.data)) + enc_bytes_spec(r.signature)
}

/// Parse of a response payload at `pos`.
pub open spec fn dec_rdata_at(s: Seq<u8>, pos: int) -> Option<(ResponseDataView, int)> {
    match dec_u64_at(s, pos) {
        Some((code, p1)) => if code == 1 {
            Some((ResponseDataView::ResponseType1, p1))
        } else if code == 2 {
            match dec_bytes_at(s, p1) {
                Some((pk, p2)) => Some((ResponseDataView::ResponseType2 { pk }, p2)),
                None => None,
            }
        } else if code == 3 {
            match dec_u64_at(s, p1) {
                Some((n, p2)) => match dec_items_at(s, p2, n as nat, block_dec_fn()) {
                    Some((blocks, p3)) => Some((ResponseDataView::ResponseType3 { blocks }, p3)),
                    None => None,
                },
                None => None,
            }
        } else if code == 500 {
            Some((ResponseDataView::ErrorResponse, p1))
        } else {
            None
        },
        None => None,
    }
}

/// Parse of a response envelope at `pos`.
pub open spec fn dec_response_at(s: Seq<u8>, pos: int) -> Option<(ResponseView, int)> {
    match dec_i64_at(s, pos) {
        Some((ts, p1)) => match dec_bytes_at(s, p1) {
            Some((payload, p2)) => match dec_rdata_at(payload, 0) {
                Some((d, q)) => if q == payload.len() {
                    match dec_bytes_at(s, p2) {
                        Some((sig, p3)) => Some(
                            (ResponseView { timestamp: ts, data: d, signature: sig }, p3),
                        ),
                        None => None,
                    }
                } else {
                    None
                },
                None => None,
            },
            None => None,
        },
        None => None,
    }
}

/// Appends the canonical encoding of `d` to `out`.
pub fn encode_rdata(d: &ResponseData, out: &mut Vec<u8>)
    ensures
        final(out)@ == old(out)@ + rdata_enc(d@),
{
    match d {
        ResponseData::ResponseType1 => {
            enc_u64(out, 1);
        },
        ResponseData::ResponseType2(p) => {
            enc_u64(out, 2);
            enc_bytes(out, p.pk.as_slice());
        },
        ResponseData::ResponseType3(p) => {
            enc_u64(out, 3);
            enc_u64(out, p.blocks.len() as u64);
            let ghost blocks_view = Seq::new(p.blocks@.len(), |i: int| p.blocks@[i]@);
            let ghost base = out@;
            let mut i: usize = 0;
            while i < p.blocks.len()
                invariant
                    i <= p.blocks@.len(),
                    blocks_view == Seq::new(p.blocks@.len(), |k: int| p.blocks@[k]@),
                    out@ == base + items_enc(blocks_view.take(i as int), block_enc_fn()),
                decreases p.blocks@.len() - i,
            {
                p.blocks[i].encode(out);
                proof {
                    lemma_items_enc_push(
                        blocks_view.take(i as int),
                        blocks_view[i as int],
                        block_enc_fn(),
                    );
                    assert(blocks_view.take(i + 1) =~= blocks_view.take(i as int).push(
                        blocks_view[i as int],
                    ));
                    assert(out@ =~= base + items_enc(blocks_view.take(i + 1), block_enc_fn()));
                }
                i = i + 1;
            }
            proof {
                assert(blocks_view.take(blocks_view.len() as int) =~= blocks_view);
            }
        },
        ResponseData::ErrorResponse => {
            enc_u64(out, 500);
        },
    }
    proof {
        reveal(rdata_enc);
        assert(out@ =~= old(out)@ + rdata_enc(d@));
    }
}

/// The bytes a response's signature must authenticate, as a fresh vector.
pub fn response_signing_bytes_exec(timestamp: i64, d: &ResponseData) -> (r: Vec<u8>)
    ensures
        r@ == response_signing_bytes(timestamp, d@),
{
    let mut out: Vec<u8> = Vec::new();
    enc_i64_dec_str(&mut out, timestamp);
    encode_rdata(d, &mut out);
    out
}

impl Response {
    /// Appends the canonical encoding of the envelope to `out`.
    pub fn encode(&self, out: &mut Vec<u8>)
        ensures
            final(out)@ == old(out)@ + response_enc(self@),
    {
        enc_i64(out, self.timestamp);
        let mut payload: Vec<u8> = Vec::new();
        encode_rdata(&self.data, &mut payload);
        enc_bytes(out, payload.as_slice());
        enc_bytes(out, self.signature.as_slice());
        proof {
            reveal(response_enc);
            assert(out@ =~= old(out)@ + response_enc(self@));
        }
    }
}

/// Reads a response payload at `pos`.
pub fn decode_rdata(buf: &[u8], pos: usize) -> (r: Option<(ResponseData, usize)>)
    ensures
        match r {
            Some((d, p)) => dec_rdata_at(buf@, pos as int) == Some((d@, p as int)),
            None => dec_rdata_at(buf@, pos as int) is None,
        },
{
    let (code, p1) = match dec_u64(buf, pos) {
        Some(x) => x,
        None => {
            return None;
        },
    };
    if code == 1 {
        Some((ResponseData::ResponseType1, p1))
    } else if code == 2 {
        match dec_bytes(buf, p1) {
            Some((pk, p2)) => Some((ResponseData::ResponseType2(Type2Data { pk }), p2)),
            None => None,
        }
    } else if code == 3 {
        let (n, p2) = match dec_u64(buf, p1) {
            Some(x) => x,
            None => {
                return None;
            },
        };
        let mut blocks: Vec<Block> = Vec::new();
        let ghost l_done: Seq<BlockView> = Seq::empty();
        let mut cur: usize = p2;
        let mut i: u64 = 0;
        while i < n
            invariant
                i <= n,
                blocks@.len() == i,
                l_done.len() == i,
                dec_u64_at(buf@, pos as int) == Some((code, p1 as int)),
                dec_u64_at(buf@, p1 as int) == Some((n, p2 as int)),
                code == 3,
                forall|j: int| 0 <= j < i ==> (#[trigger] blocks@[j]@) == l_done[j],
                dec_items_at(buf@, p2 as int, n as nat, block_dec_fn()) == (match dec_items_at(
                    buf@,
                    cur as int,
                    (n - i) as nat,
                    block_dec_fn(),
                ) {
                    Some((l, q)) => Some((l_done + l, q)),
                    None => None,
                }),
            decreases n - i,
        {
            let (b, p) = match decode_block(buf, cur) {
                Some(x) => x,
                None => {
                    proof {
                        assert(dec_items_at(buf@, cur as int, (n - i) as nat, block_dec_fn())
                            is None);
                    }
                    return None;
                },
            };
            proof {
                let rest = dec_items_at(buf@, p as int, (n - i - 1) as nat, block_dec_fn());
                if rest is Some {
                    let (l, q) = rest->Some_0;
                    assert(l_done + (seq![b@] + l) =~= (l_done + seq![b@]) + l);
                    assert(l_done.push(b@) =~= l_done + seq![b@]);
                }
            }
            blocks.push(b);
            proof {
                l_done = l_done.push(blocks@[i as int]@);
            }
            cur = p;
            i = i + 1;
        }
        proof {
            assert(dec_items_at(buf@, cur as int, 0, block_dec_fn()) == Some(
                (Seq::<BlockView>::empty(), cur as int),
            ));
            assert(l_done + Seq::<BlockView>::empty() =~= l_done);
        }
        let d = ResponseData::ResponseType3(Type3Data { blocks });
        proof {
            assert(d@ matches ResponseDataView::ResponseType3 { blocks: bv } && bv =~= l_done);
        }
        Some((d, cur))
    } else if code == 500 {
        Some((ResponseData::ErrorResponse, p1))
    } else {
        None
    }
}

/// Reads a response envelope at `pos`.
pub fn decode_response(buf: &[u8], pos: usize) -> (r: Option<(Response, usize)>)
    ensures
        match r {
            Some((resp, p)) => dec_response_at(buf@, pos as int) == Some((resp@, p as int)),
            None => dec_response_at(buf@, pos as int) is None,
        },
{
    let (ts, p1) = match dec_i64(buf, pos) {
        Some(x) => x,
        None => {
            return None;
        },
    };
    let (payload, p2) = match dec_bytes(buf, p1) {
        Some(x) => x,
        None => {
            return None;
        },
    };
    let (d, q) = match decode_rdata(payload.as_slice(), 0) {
        Some(x) => x,
        None => {
            return None;
        },
    };
    if q != payload.len() {
        return None;
    }
    let (sig, p3) = match dec_bytes(buf, p2) {
        Some(x) => x,
        None => {
            return None;
        },
    };
    Some((Response { timestamp: ts, data: d, signature: sig }, p3))
}

/// If the bytes at `pos` are `rdata_enc(d)` for well-formed `d`, the payload
/// parse yields `d`.
pub proof fn lemma_dec_rdata_of_enc(s: Seq<u8>, pos: int, d: ResponseDataView)
    requires
        0 <= pos,
        rdata_wf(d),
        pos + rdata_enc(d).len() <= s.len(),
        s.subrange(pos, pos + rdata_enc(d).len() as int) == rdata_enc(d),
    ensures
        dec_rdata_at(s, pos) == Some((d, pos + rdata_enc(d).len())),
{
    reveal(rdata_enc);
    let e = rdata_enc(d);
    let p1 = pos + 8;
    assert(s.subrange(pos, p1) =~= e.subrange(0, 8));
    match d {
        ResponseDataView::ResponseType1 => {
            assert(e.subrange(0, 8) =~= u64_le(1));
            lemma_dec_u64_of_enc(s, pos, 1);
        },
        ResponseDataView::ResponseType2 { pk } => {
            assert(e.subrange(0, 8) =~= u64_le(2));
            lemma_dec_u64_of_enc(s, pos, 2);
            assert(s.subrange(p1, p1 + enc_bytes_spec(pk).len() as int) =~= e.subrange(
                8,
                e.len() as int,
            ));
            assert(e.subrange(8, e.len() as int) =~= enc_bytes_spec(pk));
            lemma_dec_bytes_of_enc(s, p1, pk);
        },
        ResponseDataView::ResponseType3 { blocks } => {
            assert(e.subrange(0, 8) =~= u64_le(3));
            lemma_dec_u64_of_enc(s, pos, 3);
            let p2 = p1 + 8;
            assert(s.subrange(p1, p2) =~= e.subrange(8, 16));
            assert(e.subrange(8, 16) =~= u64_le(blocks.len() as u64));
            lemma_dec_u64_of_enc(s, p1, blocks.len() as u64);
            assert(s.subrange(p2, p2 + items_enc(blocks, block_enc_fn()).len() as int)
                =~= e.subrange(16, e.len() as int));
            assert(e.subrange(16, e.len() as int) =~= items_enc(blocks, block_enc_fn()));
            assert forall|j: int, p: int|
                0 <= j < blocks.len() && 0 <= p && p + block_enc_fn()(
                    #[trigger] blocks[j],
                ).len() <= s.len() && s.subrange(
                    p,
                    #[trigger] (p + block_enc_fn()(blocks[j]).len() as int),
                ) == block_enc_fn()(blocks[j]) implies block_dec_fn()(s, p) == Some(
                (blocks[j], p + block_enc_fn()(blocks[j]).len()),
            ) by {
                lemma_dec_block_of_enc(s, p, blocks[j]);
            }
            lemma_dec_items_of_enc(s, p2, blocks, block_enc_fn(), block_dec_fn());
        },
        ResponseDataView::ErrorResponse => {
            assert(e.subrange(0, 8) =~= u64_le(500));
            lemma_dec_u64_of_enc(s, pos, 500);
        },
    }
}

/// If the bytes at `pos` are `response_enc(r)` for a well-formed payload,
/// the envelope parse yields `r`.
#[verifier::rlimit(100)]
#[verifier::spinoff_prover]
pub proof fn lemma_dec_response_of_enc(s: Seq<u8>, pos: int, r: ResponseView)
    requires
        0 <= pos,
        rdata_wf(r.data),
        r.signature.len() + 9 <= u64::MAX,
        rdata_enc(r.data).len() + 9 <= u64::MAX,
        pos + response_enc(r).len() <= s.len(),
        s.subrange(pos, pos + response_enc(r).len() as int) == response_enc(r),
    ensures
        dec_response_at(s, pos) == Some((r, pos + response_enc(r).len())),
{
    reveal(response_enc);
    let e = response_enc(r);
    let payload = rdata_enc(r.data);
    let p1 = pos + 8;
    let p2 = p1 + 8 + payload.len() as int;
    let p3 = p2 + 8 + r.signature.len() as int;
    assert(s.subrange(pos, p1) =~= e.subrange(0, 8));
    assert(e.subrange(0, 8) =~= i64_le(r.timestamp));
    crate::codec::lemma_dec_i64_of_enc(s, pos, r.timestamp);
    assert(s.subrange(p1, p2) =~= e.subrange(8, p2 - pos));
    assert(e.subrange(8, p2 - pos) =~= enc_bytes_spec(payload));
    lemma_dec_bytes_of_enc(s, p1, payload);
    assert(payload.subrange(0, payload.len() as int) =~= payload);
    lemma_dec_rdata_of_enc(payload, 0, r.data);
    assert(s.subrange(p2, p3) =~= e.subrange(p2 - pos, p3 - pos));
    assert(e.subrange(p2 - pos, p3 - pos) =~= enc_bytes_spec(r.signature));
    lemma_dec_bytes_of_enc(s, p2, r.signature);
}

// ---------------------------------------------------------------------------
// Generation and execution
// ---------------------------------------------------------------------------

impl Type2Data {
    /// Builds a handshake-ack payload carrying this node's own public key.
    pub fn generate(db: &sled::Db) -> (r: Result<Type2Data, NodeError>)
        ensures
            match r {
                Ok(d) => db_view(*db).contains_key(key_secret()) && sk_ok(
                    db_view(*db)[key_secret()],
                ) && d.pk@ == pk_of(db_view(*db)[key_secret()]) && d.pk@.len() == 33,
                Err(e) => e == NodeError::StorageFailure || e == NodeError::MissingLocalKey,
            },
    {
        let sk = local_secret_key(db)?;
        let pk = generate_public_key(sk.as_slice());
        Ok(Type2Data { pk })
    }
}

impl Type3Data {
    /// Wraps a block vector as a chain-sync reply payload.
    pub fn generate(blocks: Vec<Block>) -> (r: Type3Data)
        ensures
            r.blocks@.len() == blocks@.len(),
            forall|i: int| 0 <= i < blocks@.len() ==> (#[trigger] r.blocks@[i]) == blocks@[i],
    {
        Type3Data { blocks }
    }
}

/// What every successfully generated response promises: signed with the
/// stored secret key over the decimal timestamp and the payload encoding.
pub open spec fn generated_response_ok(resp: Response, pre: Map<Seq<u8>, Seq<u8>>) -> bool {
    &&& pre.contains_key(key_secret())
    &&& sk_ok(pre[key_secret()])
    &&& resp.signature@ == sig_of(
        response_signing_bytes(resp.timestamp, resp.data@),
        pre[key_secret()],
    )
    &&& resp.signature@.len() == 64
    &&& sig_valid(
        response_signing_bytes(resp.timestamp, resp.data@),
        pk_of(pre[key_secret()]),
        resp.signature@,
    )
}

impl Response {
    /// Builds and signs a response of the given type code: 1 for a plain
    /// ack, 2 for a handshake-ack carrying this node's public key, 500 for
    /// an error marker.
    pub fn generate(data_type: u32, db: &sled::Db) -> (r: Result<Response, NodeError>)
        requires
            data_type == 1 || data_type == 2 || data_type == 500,
        ensures
            match r {
                Ok(resp) => {
                    &&& generated_response_ok(resp, db_view(*db))
                    &&& (data_type == 1 ==> resp.data@ is ResponseType1)
                    &&& (data_type == 2 ==> (resp.data@ matches ResponseDataView::ResponseType2 {
                        pk,
                    } && pk == pk_of(db_view(*db)[key_secret()])))
                    &&& (data_type == 500 ==> resp.data@ is ErrorResponse)
                },
                Err(e) => e == NodeError::StorageFailure || e == NodeError::MissingLocalKey,
            },
    {
        let data = if data_type == 2 {
            match Type2Data::generate(db) {
                Ok(d) => ResponseData::ResponseType2(d),
                Err(e) => {
                    return Err(e);
                },
            }
        } else if data_type == 1 {
            ResponseData::ResponseType1
        } else {
            ResponseData::ErrorResponse
        };
        let timestamp = clock::now_timestamp();
        let sk = local_secret_key(db)?;
        let signing = response_signing_bytes_exec(timestamp, &data);
        let signature = new_signature(signing.as_slice(), sk.as_slice());
        Ok(Response { timestamp, data, signature })
    }

    /// Builds and signs a chain-sync reply carrying `blocks`, newest first.
    /// The only supported block-vector response type is 3.
    pub fn generate_with_block_vector(data_type: u32, blocks: Vec<Block>, db: &sled::Db) -> (r:
        Result<Response, NodeError>)
        requires
            data_type == 3,
        ensures
            match r {
                Ok(resp) => {
                    &&& generated_response_ok(resp, db_view(*db))
                    &&& resp.data@ matches ResponseDataView::ResponseType3 { blocks: bv } && bv
                        == Seq::new(blocks@.len(), |i: int| blocks@[i]@)
                },
                Err(e) => e == NodeError::StorageFailure || e == NodeError::MissingLocalKey,
            },
    {
        let ghost bv0 = Seq::new(blocks@.len(), |i: int| blocks@[i]@);
        let data = ResponseData::ResponseType3(Type3Data::generate(blocks));
        let timestamp = clock::now_timestamp();
        let sk = local_secret_key(db)?;
        let signing = response_signing_bytes_exec(timestamp, &data);
        let signature = new_signature(signing.as_slice(), sk.as_slice());
        proof {
            assert(data@ matches ResponseDataView::ResponseType3 { blocks: bv } && bv =~= bv0);
        }
        Ok(Response { timestamp, data, signature })
    }

    /// Acts on a received response.  A handshake-ack registers the sender as
    /// a validator peer; a chain-sync reply persists the received blocks
    /// oldest first, so each block's parent is stored before its child; acks
    /// and error markers do nothing.  Response envelopes are not re-verified
    /// against the peer registry.
    pub fn execute(&self, src: &[u8], state: &mut NodeState) -> (r: Result<(), NodeError>)
        requires
            old(state).wf(),
            src@.len() + 9 <= u64::MAX,
        ensures
            final(state).wf(),
            final(state).is_assembler() == old(state).is_assembler(),
            final(state).mempool_view() == old(state).mempool_view(),
            match r {
                Ok(()) => {
                    &&& (self.data@ matches ResponseDataView::ResponseType2 { pk }
                        ==> crate::neighbors::nb_lookup(
                        crate::neighbors::neighbors_of_store(final(state).store())->Some_0,
                        src@,
                    ) == Some(crate::neighbors::NodeView { pk: pk, is_validator: true }))
                    &&& ((self.data@ is ResponseType1 || self.data@ is ErrorResponse)
                        ==> *final(state) == *old(state))
                    &&& (self.data@ matches ResponseDataView::ResponseType3 { blocks } ==> ({
                        let pre = old(state).blocks_view();
                        let post = final(state).blocks_view();
                        &&& post.len() == pre.len() + blocks.len()
                        &&& forall|i: int|
                            0 <= i < blocks.len() ==> (#[trigger] post[pre.len() + i])
                                == blocks[blocks.len() - 1 - i]
                        &&& forall|i: int| 0 <= i < pre.len() ==> (#[trigger] post[i]) == pre[i]
                    }))
                },
                Err(e) => e == NodeError::StorageFailure || e == NodeError::MalformedPayload,
            },
    {
        match &self.data {
            ResponseData::ResponseType1 => Ok(()),
            ResponseData::ErrorResponse => Ok(()),
            ResponseData::ResponseType2(d) => {
                if (d.pk.len() as u64) > u64::MAX - 9 {
                    return Err(NodeError::MalformedPayload);
                }
                let node = crate::neighbors::Node { pk: copy_bytes(&d.pk), is_validator: true };
                let src_key = crate::codec::bytes_range(src, 0, src.len());
                proof {
                    assert(src_key@ =~= src@);
                }
                state.neighbors_add(src_key, node)
            },
            ResponseData::ResponseType3(d) => {
                let ghost carried = (self.data@)->ResponseType3_blocks;
                let ghost base = old(state).blocks_view();
                let n = d.blocks.len();
                let mut k: usize = n;
                while k > 0
                    invariant
                        k <= n,
                        n == d.blocks@.len(),
                        carried == (self.data@)->ResponseType3_blocks,
                        carried.len() == n,
                        forall|i: int| 0 <= i < n ==> (#[trigger] carried[i]) == d.blocks@[i]@,
                        state.wf(),
                        state.is_assembler() == old(state).is_assembler(),
                        state.mempool_view() == old(state).mempool_view(),
                        base == old(state).blocks_view(),
                        state.blocks_view().len() == base.len() + (n - k),
                        forall|i: int|
                            0 <= i < n - k ==> (#[trigger] state.blocks_view()[base.len() + i])
                                == carried[n - 1 - i],
                        forall|i: int|
                            0 <= i < base.len() ==> (#[trigger] state.blocks_view()[i]) == base[i],
                    decreases k,
                {
                    let ghost pre = state.blocks_view();
                    match state.persist_incoming(&d.blocks[k - 1]) {
                        Ok(()) => {},
                        Err(e) => {
                            return Err(e);
                        },
                    }
                    proof {
                        assert(state.blocks_view() == pre.push(d.blocks@[k - 1]@));
                        assert forall|i: int|
                            0 <= i < n - (k - 1) implies (#[trigger] state.blocks_view()[base.len()
                            + i]) == carried[n - 1 - i] by {
                            if i < n - k {
                                assert(state.blocks_view()[base.len() + i] == pre[base.len() + i]);
                            } else {
                                assert(base.len() + i == pre.len());
                            }
                        }
                        assert forall|i: int| 0 <= i < base.len() implies (
                        #[trigger] state.blocks_view()[i]) == base[i] by {
                            assert(state.blocks_view()[i] == pre[i]);
                        }
                    }
                    k = k - 1;
                }
                Ok(())
            },
        }
    }
}

} // verus!
