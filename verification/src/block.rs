//! Blocks and the chain: assembly from the mempool, persistence, backward
//! walks, and transaction search.
//!
//! A block's `header` is the Merkle root digest of its transaction set and
//! doubles as its storage key.  `previous_block_header` links each block to
//! its parent; the genesis block's link is empty.  The issuer signature
//! authenticates `decimal-string(timestamp) ++ canonical-encoding(header)`.

use vstd::prelude::*;
use crate::codec::{
    enc_bytes_spec,
    i64_le,
    i64_dec_str,
    dec_bytes_at,
    dec_i64_at,
    enc_bytes,
    enc_i64,
    enc_i64_dec_str,
    dec_bytes,
    dec_i64,
    copy_bytes,
    bytes_eq,
    lemma_dec_bytes_of_enc,
    lemma_dec_i64_of_enc,
};
use crate::errors::NodeError;
use crate::transactions::{Transaction, TransactionView, tx_wf, tx_check_wf, tx_signing_bytes};
use crate::merkle::{
    Mempool,
    items_map,
    root_of,
    body_enc,
    loadable,
    dec_body_at,
    lemma_mempool_items_wf,
};
use crate::signature::{sk_ok, pk_of, sig_of, sig_valid, new_signature, secret_key_ok, generate_public_key};
use crate::keyvalue;
use crate::keyvalue::db_view;
use crate::storekeys::{key_secret, key_federated, key_last_header, key_federated_bytes, key_last_header_bytes};
use crate::ledger::{derive_spec, lemma_derive_step_wf};
use crate::transactions::local_secret_key;
use crate::clock;
use crate::ledger::{
    AddressesState,
    AddressView,
    ledger_wf,
    ledger_enc,
    dec_ledger_at,
    encode_ledger,
    decode_ledger,
    lemma_dec_ledger_of_enc,
};

verus! {

// ---------------------------------------------------------------------------
// Data model
// ---------------------------------------------------------------------------

/// The optional second signature from the chain-wide co-signing key.
pub enum FederationSignature {
    Signed(Vec<u8>),
    Unsigned,
}

/// A block: the snapshot of a transaction set and the ledger derived from
/// it, linked to its parent and signed by its issuer.
pub struct Block {
    pub header: Vec<u8>,
    pub issuer: Vec<u8>,
    pub addresses_state: AddressesState,
    pub body: Vec<u8>,
    pub timestamp: i64,
    pub previous_block_header: Vec<u8>,
    pub issuer_signature: Vec<u8>,
    pub federation_signature: FederationSignature,
}

/// Mathematical model of the federation signature.
pub enum FederationSignatureView {
    Signed(Seq<u8>),
    Unsigned,
}

/// Mathematical model of a block.
pub struct BlockView {
    pub header: Seq<u8>,
    pub issuer: Seq<u8>,
    pub addresses_state: Seq<(Seq<u8>, AddressView)>,
    pub body: Seq<u8>,
    pub timestamp: i64,
    pub previous_block_header: Seq<u8>,
    pub issuer_signature: Seq<u8>,
    pub federation_signature: FederationSignatureView,
}

impl View for FederationSignature {
    type V = FederationSignatureView;

    open spec fn view(&self) -> FederationSignatureView {
        match self {
            FederationSignature::Signed(s) => FederationSignatureView::Signed(s@),
            FederationSignature::Unsigned => FederationSignatureView::Unsigned,
        }
    }
}

impl View for Block {
    type V = BlockView;

    open spec fn view(&self) -> BlockView {
        BlockView {
            header: self.header@,
            issuer: self.issuer@,
            addresses_state: self.addresses_state@,
            body: self.body@,
            timestamp: self.timestamp,
            previous_block_header: self.previous_block_header@,
            issuer_signature: self.issuer_signature@,
            federation_signature: self.federation_signature@,
        }
    }
}

/// Structural well-formedness of a block.
pub open spec fn block_wf(b: BlockView) -> bool {
    &&& b.header.len() == 32
    &&& b.issuer.len() == 33
    &&& ledger_wf(b.addresses_state)
    &&& b.body.len() + 9 <= u64::MAX
    &&& b.previous_block_header.len() == 32 || b.previous_block_header.len() == 0
    &&& b.issuer_signature.len() == 64
    &&& match b.federation_signature {
        FederationSignatureView::Signed(s) => s.len() == 64,
        FederationSignatureView::Unsigned => true,
    }
}

/// The bytes a block's issuer signature authenticates: the decimal rendering
/// of the timestamp followed by the canonical encoding of the header.
pub open spec fn block_signing_bytes(timestamp: i64, header: Seq<u8>) -> Seq<u8> {
    i64_dec_str(timestamp as int) + enc_bytes_spec(header)
}

/// Builds the bytes a block's issuer signature must authenticate.
pub fn block_signing_bytes_exec(timestamp: i64, header: &[u8]) -> (r: Vec<u8>)
    ensures
        r@ == block_signing_bytes(timestamp, header@),
{
    let mut out: Vec<u8> = Vec::new();
    enc_i64_dec_str(&mut out, timestamp);
    enc_bytes(&mut out, header);
    out
}

// ---------------------------------------------------------------------------
// Canonical encoding
// ---------------------------------------------------------------------------

/// Canonical encoding of the federation signature: a presence tag, then the
/// signature when present.
pub open spec fn fed_enc(f: FederationSignatureView) -> Seq<u8> {
    match f {
        FederationSignatureView::Signed(s) => seq![1u8] + enc_bytes_spec(s),
        FederationSignatureView::Unsigned => seq![0u8],
    }
}

/// Canonical encoding of a whole block.
#[verifier::opaque]
pub open spec fn block_enc(b: BlockView) -> Seq<u8> {
    enc_bytes_spec(b.header) + enc_bytes_spec(b.issuer) + ledger_enc(b.addresses_state)
        + enc_bytes_spec(b.body) + i64_le(b.timestamp) + enc_bytes_spec(b.previous_block_header)
        + enc_bytes_spec(b.issuer_signature) + fed_enc(b.federation_signature)
}

/// Parse of a federation signature at `pos`.
pub open spec fn dec_fed_at(s: Seq<u8>, pos: int) -> Option<(FederationSignatureView, int)> {
    if 0 <= pos < s.len() {
        let tag = s[pos];
        if tag == 1 {
            match dec_bytes_at(s, pos + 1) {
                Some((b, p)) => Some((FederationSignatureView::Signed(b), p)),
                None => None,
            }
        } else if tag == 0 {
            Some((FederationSignatureView::Unsigned, pos + 1))
        } else {
            None
        }
    } else {
        None
    }
}

/// Parse of a block at `pos`.
pub open spec fn dec_block_at(s: Seq<u8>, pos: int) -> Option<(BlockView, int)> {
    match dec_bytes_at(s, pos) {
        Some((header, p1)) => match dec_bytes_at(s, p1) {
            Some((issuer, p2)) => match dec_ledger_at(s, p2) {
                Some((st, p3)) => match dec_bytes_at(s, p3) {
                    Some((body, p4)) => match dec_i64_at(s, p4) {
                        Some((ts, p5)) => match dec_bytes_at(s, p5) {
                            Some((prev, p6)) => match dec_bytes_at(s, p6) {
                                Some((isig, p7)) => match dec_fed_at(s, p7) {
                                    Some((fed, p8)) => Some(
                                        (
                                            BlockView {
                                                header: header,
                                                issuer: issuer,
                                                addresses_state: st,
                                                body: body,
                                                timestamp: ts,
                                                previous_block_header: prev,
                                                issuer_signature: isig,
                                                federation_signature: fed,
                                            },
                                            p8,
                                        ),
                                    ),
                                    None => None,
                                },
                                None => None,
                            },
                            None => None,
                        },
                        None => None,
                    },
                    None => None,
                },
                None => None,
            },
            None => None,
        },
        None => None,
    }
}

impl Block {
    /// Appends the canonical encoding of the block to `out`.
    pub fn encode(&self, out: &mut Vec<u8>)
        ensures
            final(out)@ == old(out)@ + block_enc(self@),
    {
        enc_bytes(out, self.header.as_slice());
        enc_bytes(out, self.issuer.as_slice());
        encode_ledger(&self.addresses_state, out);
        enc_bytes(out, self.body.as_slice());
        enc_i64(out, self.timestamp);
        enc_bytes(out, self.previous_block_header.as_slice());
        enc_bytes(out, self.issuer_signature.as_slice());
        match &self.federation_signature {
            FederationSignature::Signed(s) => {
                out.push(1u8);
                enc_bytes(out, s.as_slice());
            },
            FederationSignature::Unsigned => {
                out.push(0u8);
            },
        }
        proof {
            reveal(block_enc);
            assert(out@ =~= old(out)@ + block_enc(self@));
        }
    }

    /// The canonical encoding of the block as a fresh vector.
    pub fn to_bytes(&self) -> (r: Vec<u8>)
        ensures
            r@ == block_enc(self@),
    {
        let mut out: Vec<u8> = Vec::new();
        self.encode(&mut out);
        out
    }

    /// A field-wise copy of the block.
    pub fn duplicate(&self) -> (r: Block)
        ensures
            r@ == self@,
    {
        let mut state: Vec<(Vec<u8>, crate::ledger::Address)> = Vec::new();
        let mut i: usize = 0;
        while i < self.addresses_state.state.len()
            invariant
                i <= self.addresses_state.state@.len(),
                state@.len() == i,
                forall|j: int| 0 <= j < i ==> #[trigger] state@[j].0@
                    == self.addresses_state.state@[j].0@ && state@[j].1@
                    == self.addresses_state.state@[j].1@,
            decreases self.addresses_state.state@.len() - i,
        {
            state.push(
                (
                    copy_bytes(&self.addresses_state.state[i].0),
                    self.addresses_state.state[i].1.duplicate(),
                ),
            );
            i = i + 1;
        }
        let ledger = AddressesState { state };
        let r = Block {
            header: copy_bytes(&self.header),
            issuer: copy_bytes(&self.issuer),
            addresses_state: ledger,
            body: copy_bytes(&self.body),
            timestamp: self.timestamp,
            previous_block_header: copy_bytes(&self.previous_block_header),
            issuer_signature: copy_bytes(&self.issuer_signature),
            federation_signature: match &self.federation_signature {
                FederationSignature::Signed(s) => FederationSignature::Signed(copy_bytes(s)),
                FederationSignature::Unsigned => FederationSignature::Unsigned,
            },
        };
        proof {
            assert(r@.addresses_state =~= self@.addresses_state);
            assert(r@ == self@);
        }
        r
    }
}

/// Reads a block at `pos`.
pub fn decode_block(buf: &[u8], pos: usize) -> (r: Option<(Block, usize)>)
    ensures
        match r {
            Some((b, p)) => dec_block_at(buf@, pos as int) == Some((b@, p as int)),
            None => dec_block_at(buf@, pos as int) is None,
        },
{
    let (header, p1) = match dec_bytes(buf, pos) {
        Some(x) => x,
        None => {
            return None;
        },
    };
    let (issuer, p2) = match dec_bytes(buf, p1) {
        Some(x) => x,
        None => {
            return None;
        },
    };
    let (st, p3) = match decode_ledger(buf, p2) {
        Some(x) => x,
        None => {
            return None;
        },
    };
    let (body, p4) = match dec_bytes(buf, p3) {
        Some(x) => x,
        None => {
            return None;
        },
    };
    let (ts, p5) = match dec_i64(buf, p4) {
        Some(x) => x,
        None => {
            return None;
        },
    };
    let (prev, p6) = match dec_bytes(buf, p5) {
        Some(x) => x,
        None => {
            return None;
        },
    };
    let (isig, p7) = match dec_bytes(buf, p6) {
        Some(x) => x,
        None => {
            return None;
        },
    };
    if p7 >= buf.len() {
        return None;
    }
    let tag = buf[p7];
    let (fed, p8): (FederationSignature, usize) = if tag == 1 {
        match dec_bytes(buf, p7 + 1) {
            Some((sv, p)) => (FederationSignature::Signed(sv), p),
            None => {
                return None;
            },
        }
    } else if tag == 0 {
        (FederationSignature::Unsigned, p7 + 1)
    } else {
        return None;
    };
    Some(
        (
            Block {
                header,
                issuer,
                addresses_state: st,
                body,
                timestamp: ts,
                previous_block_header: prev,
                issuer_signature: isig,
                federation_signature: fed,
            },
            p8,
        ),
    )
}

/// If the bytes at `pos` are `block_enc(b)`, the block parse yields `b`.
#[verifier::rlimit(100)]
#[verifier::spinoff_prover]
pub proof fn lemma_dec_block_of_enc(s: Seq<u8>, pos: int, b: BlockView)
    requires
        0 <= pos,
        block_wf(b),
        pos + block_enc(b).len() <= s.len(),
        s.subrange(pos, pos + block_enc(b).len() as int) == block_enc(b),
    ensures
        dec_block_at(s, pos) == Some((b, pos + block_enc(b).len())),
{
    reveal(block_enc);
    let e = block_enc(b);
    let p1 = pos + 8 + b.header.len() as int;
    let p2 = p1 + 8 + b.issuer.len() as int;
    let p3 = p2 + ledger_enc(b.addresses_state).len() as int;
    let p4 = p3 + 8 + b.body.len() as int;
    let p5 = p4 + 8;
    let p6 = p5 + 8 + b.previous_block_header.len() as int;
    let p7 = p6 + 8 + b.issuer_signature.len() as int;
    let p8 = p7 + fed_enc(b.federation_signature).len() as int;
    assert(s.subrange(pos, p1) =~= e.subrange(0, p1 - pos));
    assert(e.subrange(0, p1 - pos) =~= enc_bytes_spec(b.header));
    lemma_dec_bytes_of_enc(s, pos, b.header);
    assert(s.subrange(p1, p2) =~= e.subrange(p1 - pos, p2 - pos));
    assert(e.subrange(p1 - pos, p2 - pos) =~= enc_bytes_spec(b.issuer));
    lemma_dec_bytes_of_enc(s, p1, b.issuer);
    assert(s.subrange(p2, p3) =~= e.subrange(p2 - pos, p3 - pos));
    assert(e.subrange(p2 - pos, p3 - pos) =~= ledger_enc(b.addresses_state));
    lemma_dec_ledger_of_enc(s, p2, b.addresses_state);
    assert(s.subrange(p3, p4) =~= e.subrange(p3 - pos, p4 - pos));
    assert(e.subrange(p3 - pos, p4 - pos) =~= enc_bytes_spec(b.body));
    lemma_dec_bytes_of_enc(s, p3, b.body);
    assert(s.subrange(p4, p5) =~= e.subrange(p4 - pos, p5 - pos));
    assert(e.subrange(p4 - pos, p5 - pos) =~= i64_le(b.timestamp));
    lemma_dec_i64_of_enc(s, p4, b.timestamp);
    assert(s.subrange(p5, p6) =~= e.subrange(p5 - pos, p6 - pos));
    assert(e.subrange(p5 - pos, p6 - pos) =~= enc_bytes_spec(b.previous_block_header));
    lemma_dec_bytes_of_enc(s, p5, b.previous_block_header);
    assert(s.subrange(p6, p7) =~= e.subrange(p6 - pos, p7 - pos));
    assert(e.subrange(p6 - pos, p7 - pos) =~= enc_bytes_spec(b.issuer_signature));
    lemma_dec_bytes_of_enc(s, p6, b.issuer_signature);
    assert(s.subrange(p7, p8) =~= e.subrange(p7 - pos, p8 - pos));
    assert(e.subrange(p7 - pos, p8 - pos) =~= fed_enc(b.federation_signature));
    match b.federation_signature {
        FederationSignatureView::Signed(sig) => {
            assert(s[p7] == fed_enc(b.federation_signature)[0]);
            assert(s.subrange(p7 + 1, p8) =~= fed_enc(b.federation_signature).subrange(
                1,
                fed_enc(b.federation_signature).len() as int,
            ));
            assert(fed_enc(b.federation_signature).subrange(
                1,
                fed_enc(b.federation_signature).len() as int,
            ) =~= enc_bytes_spec(sig));
            lemma_dec_bytes_of_enc(s, p7 + 1, sig);
        },
        FederationSignatureView::Unsigned => {
            assert(s[p7] == fed_enc(b.federation_signature)[0]);
        },
    }
}

// ---------------------------------------------------------------------------
// Deterministic replay order
// ---------------------------------------------------------------------------

/// Lexicographic order on byte strings (with the prefix smaller).
pub open spec fn lex_leq(a: Seq<u8>, b: Seq<u8>) -> bool
    decreases a.len(),
{
    if a.len() == 0 {
        true
    } else if b.len() == 0 {
        false
    } else if a[0] < b[0] {
        true
    } else if a[0] > b[0] {
        false
    } else {
        lex_leq(a.drop_first(), b.drop_first())
    }
}

/// Compares two byte strings lexicographically.
pub fn bytes_lex_leq(a: &[u8], b: &[u8]) -> (r: bool)
    ensures
        r == lex_leq(a@, b@),
{
    let mut i: usize = 0;
    proof {
        assert(a@.skip(0) =~= a@);
        assert(b@.skip(0) =~= b@);
    }
    loop
        invariant
            i <= a@.len(),
            i <= b@.len(),
            lex_leq(a@, b@) == lex_leq(a@.skip(i as int), b@.skip(i as int)),
        decreases a@.len() - i,
    {
        if i == a.len() {
            proof {
                assert(a@.skip(i as int).len() == 0);
            }
            return true;
        }
        if i == b.len() {
            proof {
                assert(b@.skip(i as int).len() == 0 && a@.skip(i as int).len() > 0);
            }
            return false;
        }
        if a[i] < b[i] {
            proof {
                assert(a@.skip(i as int)[0] == a@[i as int]);
                assert(b@.skip(i as int)[0] == b@[i as int]);
            }
            return true;
        }
        if a[i] > b[i] {
            proof {
                assert(a@.skip(i as int)[0] == a@[i as int]);
                assert(b@.skip(i as int)[0] == b@[i as int]);
            }
            return false;
        }
        proof {
            assert(a@.skip(i as int)[0] == a@[i as int] && b@.skip(i as int)[0] == b@[i as int]);
            assert(a@.skip(i as int).drop_first() =~= a@.skip(i + 1));
            assert(b@.skip(i as int).drop_first() =~= b@.skip(i + 1));
        }
        i = i + 1;
    }
}

/// The views of a transaction list.
pub open spec fn views_of(s: Seq<Transaction>) -> Seq<TransactionView> {
    Seq::new(s.len(), |i: int| s[i]@)
}

/// Inserts `t` into a list ordered by signature, before the first entry
/// whose signature is not smaller.
pub open spec fn insert_by_sig(
    s: Seq<TransactionView>,
    t: TransactionView,
) -> Seq<TransactionView>
    decreases s.len(),
{
    if s.len() == 0 {
        seq![t]
    } else if lex_leq(t.signature, s[0].signature) {
        seq![t] + s
    } else {
        seq![s[0]] + insert_by_sig(s.drop_first(), t)
    }
}

/// Insertion sort of a transaction list by signature: the deterministic
/// replay order used for ledger derivation.
pub open spec fn sort_by_sig(s: Seq<TransactionView>) -> Seq<TransactionView>
    decreases s.len(),
{
    if s.len() == 0 {
        s
    } else {
        insert_by_sig(sort_by_sig(s.drop_last()), s.last())
    }
}

/// `insert_by_sig` places the item at the first position whose entry is not
/// smaller, keeping everything else in order.
proof fn lemma_insert_by_sig_at(s: Seq<TransactionView>, t: TransactionView, i: int)
    requires
        0 <= i <= s.len(),
        forall|j: int| 0 <= j < i ==> !lex_leq(t.signature, (#[trigger] s[j]).signature),
        i < s.len() ==> lex_leq(t.signature, s[i].signature),
    ensures
        insert_by_sig(s, t) == s.subrange(0, i) + seq![t] + s.subrange(i, s.len() as int),
    decreases s.len(),
{
    if s.len() == 0 {
        assert(insert_by_sig(s, t) =~= s.subrange(0, i) + seq![t] + s.subrange(
            i,
            s.len() as int,
        ));
    } else if i == 0 {
        assert(insert_by_sig(s, t) =~= s.subrange(0, 0) + seq![t] + s.subrange(0, s.len() as int));
    } else {
        assert(!lex_leq(t.signature, s[0].signature));
        assert forall|j: int| 0 <= j < i - 1 implies !lex_leq(
            t.signature,
            (#[trigger] s.drop_first()[j]).signature,
        ) by {
            assert(s.drop_first()[j] == s[j + 1]);
        }
        assert(i - 1 < s.drop_first().len() ==> s.drop_first()[i - 1] == s[i]);
        lemma_insert_by_sig_at(s.drop_first(), t, i - 1);
        assert(insert_by_sig(s, t) == seq![s[0]] + insert_by_sig(s.drop_first(), t));
        assert(s.drop_first().subrange(0, i - 1) =~= s.subrange(1, i));
        assert(s.drop_first().subrange(i - 1, s.drop_first().len() as int) =~= s.subrange(
            i,
            s.len() as int,
        ));
        assert(insert_by_sig(s, t) =~= s.subrange(0, i) + seq![t] + s.subrange(
            i,
            s.len() as int,
        ));
    }
}

/// The first position in `v` whose entry's signature is not smaller than
/// `t`'s.
fn find_insert_pos(v: &Vec<Transaction>, t: &Transaction) -> (i: usize)
    ensures
        i <= v@.len(),
        forall|j: int| 0 <= j < i ==> !lex_leq(t@.signature, (#[trigger] views_of(v@)[j]).signature),
        i < v@.len() ==> lex_leq(t@.signature, views_of(v@)[i as int].signature),
{
    let mut i: usize = 0;
    while i < v.len()
        invariant
            i <= v@.len(),
            forall|j: int| 0 <= j < i ==> !lex_leq(t@.signature, (#[trigger] views_of(v@)[j]).signature),
        decreases v@.len() - i,
    {
        if bytes_lex_leq(t.signature.as_slice(), v[i].signature.as_slice()) {
            return i;
        }
        i = i + 1;
    }
    i
}

/// Inserts `t` into `v`, keeping it ordered by signature.
fn insert_sorted(v: &mut Vec<Transaction>, t: Transaction)
    ensures
        views_of(final(v)@) == insert_by_sig(views_of(old(v)@), t@),
{
    let i = find_insert_pos(v, &t);
    proof {
        lemma_insert_by_sig_at(views_of(v@), t@, i as int);
    }
    v.insert(i, t);
    proof {
        assert(views_of(v@) =~= views_of(old(v)@).subrange(0, i as int) + seq![t@] + views_of(
            old(v)@,
        ).subrange(i as int, views_of(old(v)@).len() as int));
    }
}

/// Sorts a transaction list by signature: the deterministic replay order.
pub fn sort_transactions(txs: Vec<crate::transactions::Transaction>) -> (r: Vec<
    Transaction,
>)
    ensures
        views_of(r@) == sort_by_sig(views_of(txs@)),
{
    let mut r: Vec<Transaction> = Vec::new();
    let ghost all = views_of(txs@);
    let mut i: usize = 0;
    proof {
        assert(views_of(r@) =~= sort_by_sig(all.take(0)));
    }
    while i < txs.len()
        invariant
            i <= all.len(),
            all == views_of(txs@),
            views_of(r@) == sort_by_sig(all.take(i as int)),
        decreases all.len() - i,
    {
        let t = txs[i].duplicate();
        proof {
            assert(t@ == all[i as int]);
        }
        insert_sorted(&mut r, t);
        proof {
            assert(all.take(i + 1).drop_last() =~= all.take(i as int));
            assert(all.take(i + 1).last() == all[i as int]);
        }
        i = i + 1;
    }
    proof {
        assert(all.take(all.len() as int) =~= all);
    }
    r
}

// ---------------------------------------------------------------------------
// The chain
// ---------------------------------------------------------------------------

/// How many pending transactions trigger block assembly.
pub const MEMPOOL_THRESHOLD: usize = 10;

/// Well-formedness of a chain: well-formed blocks, an empty link on the
/// genesis block, each later block linked to its predecessor, and unique
/// headers.
pub open spec fn chain_wf(c: Seq<BlockView>) -> bool {
    &&& forall|i: int| 0 <= i < c.len() ==> block_wf(#[trigger] c[i])
    &&& c.len() > 0 ==> c[0].previous_block_header.len() == 0
    &&& forall|i: int|
        1 <= i < c.len() ==> (#[trigger] c[i].previous_block_header) == c[i - 1].header
    &&& forall|i: int, j: int|
        0 <= i < j < c.len() ==> (#[trigger] c[i].header) != (#[trigger] c[j].header)
}

/// The chain tip: the newest block's header, or empty for a fresh chain.
pub open spec fn tip(c: Seq<BlockView>) -> Seq<u8> {
    if c.len() == 0 {
        Seq::empty()
    } else {
        c.last().header
    }
}

/// The ledger snapshot assembly starts from: the newest block's, or empty.
pub open spec fn prev_ledger(c: Seq<BlockView>) -> Seq<(Seq<u8>, AddressView)> {
    if c.len() == 0 {
        Seq::empty()
    } else {
        c.last().addresses_state
    }
}

/// Index of the first block with header `h`, or -1 when there is none.
pub open spec fn find_header(c: Seq<BlockView>, h: Seq<u8>) -> int
    decreases c.len(),
{
    if c.len() == 0 {
        -1
    } else if c[0].header == h {
        0
    } else {
        let r = find_header(c.drop_first(), h);
        if r < 0 {
            -1
        } else {
            r + 1
        }
    }
}

/// What `find_header` returns.
pub proof fn lemma_find_header_props(c: Seq<BlockView>, h: Seq<u8>)
    ensures
        find_header(c, h) == -1 || 0 <= find_header(c, h) < c.len(),
        find_header(c, h) == -1 ==> forall|j: int| 0 <= j < c.len() ==> (#[trigger] c[j].header)
            != h,
        find_header(c, h) >= 0 ==> c[find_header(c, h)].header == h,
    decreases c.len(),
{
    if c.len() > 0 && c[0].header != h {
        lemma_find_header_props(c.drop_first(), h);
        assert forall|j: int| 1 <= j < c.len() implies c.drop_first()[j - 1] == c[j] by {}
    }
}

/// A position that holds `h` after positions that do not is what
/// `find_header` returns.
pub proof fn lemma_find_header_char(c: Seq<BlockView>, h: Seq<u8>, i: int)
    requires
        0 <= i < c.len(),
        c[i].header == h,
        forall|j: int| 0 <= j < i ==> (#[trigger] c[j].header) != h,
    ensures
        find_header(c, h) == i,
    decreases c.len(),
{
    if i > 0 {
        assert(c[0].header != h);
        assert forall|j: int| 0 <= j < i - 1 implies (#[trigger] c.drop_first()[j].header) != h by {
            assert(c.drop_first()[j] == c[j + 1]);
        }
        assert(c.drop_first()[i - 1] == c[i]);
        lemma_find_header_char(c.drop_first(), h, i - 1);
    }
}

/// The views of a block list.
pub open spec fn block_views(s: Seq<Block>) -> Seq<BlockView> {
    Seq::new(s.len(), |i: int| s[i]@)
}

/// What a successful backward walk over the chain `c` returns: the
/// contiguous path from the block holding `from` down to the block holding
/// `stop` (exclusive) or to genesis (inclusive), newest first, its links
/// forming a strictly decreasing path.
pub open spec fn walk_back_ok(c: Seq<BlockView>, from: Seq<u8>, stop: Seq<u8>, v: Seq<BlockView>) -> bool {
    let idx = find_header(c, from);
    &&& 0 <= idx < c.len()
    &&& 1 <= v.len() <= idx + 1
    &&& forall|k: int| 0 <= k < v.len() ==> (#[trigger] v[k]) == c[idx - k]
    &&& forall|m: int| idx + 1 - v.len() <= m < idx ==> (#[trigger] c[m].header) != stop
    &&& (v.len() == idx + 1 || c[idx - v.len()].header == stop)
    &&& forall|k: int|
        0 <= k < v.len() - 1 ==> (#[trigger] v[k].previous_block_header) == v[k + 1].header
}

/// What a successfully assembled block promises, relative to the pending set
/// `pool`, the chain and the store contents at assembly time.
pub open spec fn assembled_ok(
    b: BlockView,
    pool: Seq<TransactionView>,
    chain: Seq<BlockView>,
    store: Map<Seq<u8>, Seq<u8>>,
) -> bool {
    &&& block_wf(b)
    &&& b.header == root_of(items_map(pool))
    &&& b.body == body_enc(pool)
    &&& b.previous_block_header == tip(chain)
    &&& b.addresses_state == derive_spec(prev_ledger(chain), sort_by_sig(pool))
    &&& store.contains_key(key_secret()) && sk_ok(store[key_secret()])
    &&& b.issuer == pk_of(store[key_secret()])
    &&& b.issuer_signature == sig_of(block_signing_bytes(b.timestamp, b.header), store[key_secret()])
    &&& sig_valid(block_signing_bytes(b.timestamp, b.header), b.issuer, b.issuer_signature)
    &&& match b.federation_signature {
        FederationSignatureView::Signed(fs) => store.contains_key(key_federated()) && sk_ok(
            store[key_federated()],
        ) && fs == sig_of(block_signing_bytes(b.timestamp, b.header), store[key_federated()])
            && sig_valid(
            block_signing_bytes(b.timestamp, b.header),
            pk_of(store[key_federated()]),
            fs,
        ),
        FederationSignatureView::Unsigned => !(store.contains_key(key_federated()) && sk_ok(
            store[key_federated()],
        )),
    }
}

/// Inserting by signature keeps every transaction well-formed and adds one.
proof fn lemma_insert_by_sig_wf(s: Seq<TransactionView>, t: TransactionView)
    requires
        forall|i: int| 0 <= i < s.len() ==> tx_wf(#[trigger] s[i]),
        tx_wf(t),
    ensures
        insert_by_sig(s, t).len() == s.len() + 1,
        forall|i: int| 0 <= i < insert_by_sig(s, t).len() ==> tx_wf(#[trigger] insert_by_sig(s, t)[i]),
    decreases s.len(),
{
    if s.len() > 0 && !lex_leq(t.signature, s[0].signature) {
        assert forall|i: int| 0 <= i < s.drop_first().len() implies tx_wf(
            #[trigger] s.drop_first()[i],
        ) by {
            assert(s.drop_first()[i] == s[i + 1]);
        }
        lemma_insert_by_sig_wf(s.drop_first(), t);
        assert forall|i: int| 0 <= i < insert_by_sig(s, t).len() implies tx_wf(
            #[trigger] insert_by_sig(s, t)[i],
        ) by {
            if i > 0 {
                assert(insert_by_sig(s, t)[i] == insert_by_sig(s.drop_first(), t)[i - 1]);
            }
        }
    }
}

/// The deterministic replay order keeps every transaction well-formed and
/// the count unchanged.
pub proof fn lemma_sort_by_sig_wf(s: Seq<TransactionView>)
    requires
        forall|i: int| 0 <= i < s.len() ==> tx_wf(#[trigger] s[i]),
    ensures
        sort_by_sig(s).len() == s.len(),
        forall|i: int| 0 <= i < sort_by_sig(s).len() ==> tx_wf(#[trigger] sort_by_sig(s)[i]),
    decreases s.len(),
{
    if s.len() > 0 {
        assert forall|i: int| 0 <= i < s.drop_last().len() implies tx_wf(
            #[trigger] s.drop_last()[i],
        ) by {
            assert(s.drop_last()[i] == s[i]);
        }
        lemma_sort_by_sig_wf(s.drop_last());
        lemma_insert_by_sig_wf(sort_by_sig(s.drop_last()), s.last());
    }
}

/// Replay preserves ledger well-formedness and grows the snapshot by at most
/// two entries per transaction.
pub proof fn lemma_derive_spec_wf(s: Seq<(Seq<u8>, AddressView)>, txs: Seq<TransactionView>)
    requires
        crate::ledger::ledger_wf(s),
        forall|i: int| 0 <= i < txs.len() ==> tx_wf(#[trigger] txs[i]),
        s.len() + 2 * txs.len() + 3 <= u64::MAX,
    ensures
        crate::ledger::ledger_wf(derive_spec(s, txs)),
        derive_spec(s, txs).len() <= s.len() + 2 * txs.len(),
    decreases txs.len(),
{
    if txs.len() > 0 {
        assert forall|i: int| 0 <= i < txs.drop_last().len() implies tx_wf(
            #[trigger] txs.drop_last()[i],
        ) by {
            assert(txs.drop_last()[i] == txs[i]);
        }
        lemma_derive_spec_wf(s, txs.drop_last());
        lemma_derive_step_wf(derive_spec(s, txs.drop_last()), txs.last());
    }
}

/// The running state of one node: its store handle, pending set, chain, and
/// whether it closes blocks.
pub struct NodeState {
    db: sled::Db,
    mempool: Mempool,
    blocks: Vec<Block>,
    assembler: bool,
}

impl NodeState {
    /// The chain as a sequence of block models, genesis first.
    pub closed spec fn blocks_view(&self) -> Seq<BlockView> {
        Seq::new(self.blocks@.len(), |i: int| self.blocks@[i]@)
    }

    /// The pending transaction set.
    pub closed spec fn mempool_view(&self) -> Seq<TransactionView> {
        self.mempool@
    }

    /// The contents of the node's store.
    pub closed spec fn store(&self) -> Map<Seq<u8>, Seq<u8>> {
        db_view(self.db)
    }

    /// Whether this node closes blocks when the threshold is reached.
    pub closed spec fn is_assembler(&self) -> bool {
        self.assembler
    }

    /// The node invariant: a well-formed pending set and a well-formed
    /// chain.  Blocks are also written through to the store under their own
    /// header, with the tip pointer on the newest block; the store's
    /// contents after a reported storage failure are not tracked.
    pub closed spec fn wf(&self) -> bool {
        &&& self.mempool.wf()
        &&& chain_wf(self.blocks_view())
    }

    /// A fresh node over the given store handle.
    pub fn new(db: sled::Db, assembler: bool) -> (r: NodeState)
        ensures
            r.wf(),
            r.blocks_view() == Seq::<BlockView>::empty(),
            r.mempool_view() == Seq::<TransactionView>::empty(),
            r.store() == db_view(db),
            r.is_assembler() == assembler,
    {
        let r = NodeState { db, mempool: Mempool::new(), blocks: Vec::new(), assembler };
        proof {
            assert(r.blocks_view() =~= Seq::<BlockView>::empty());
        }
        r
    }

    /// How many blocks the chain holds.
    pub fn block_count(&self) -> (r: usize)
        ensures
            r == self.blocks_view().len(),
    {
        self.blocks.len()
    }

    /// A copy of the block at position `i` (genesis first).
    pub fn get_block(&self, i: usize) -> (r: Option<Block>)
        ensures
            match r {
                Some(b) => i < self.blocks_view().len() && b@ == self.blocks_view()[i as int],
                None => i >= self.blocks_view().len(),
            },
    {
        if i < self.blocks.len() {
            Some(self.blocks[i].duplicate())
        } else {
            None
        }
    }

    /// The chain tip header; empty for a fresh chain.
    pub fn tip_header(&self) -> (r: Vec<u8>)
        ensures
            r@ == tip(self.blocks_view()),
    {
        if self.blocks.len() == 0 {
            let r: Vec<u8> = Vec::new();
            proof {
                assert(r@ =~= tip(self.blocks_view()));
            }
            r
        } else {
            copy_bytes(&self.blocks[self.blocks.len() - 1].header)
        }
    }

    /// How many transactions are pending.
    pub fn mempool_len(&self) -> (r: usize)
        ensures
            r == self.mempool_view().len(),
    {
        self.mempool.len()
    }

    /// Whether this node closes blocks when the threshold is reached.
    pub fn assembles_blocks(&self) -> (r: bool)
        ensures
            r == self.is_assembler(),
    {
        self.assembler
    }

    /// A copy of the pending transaction carrying `sig`, if any.
    pub fn mempool_get(&self, sig: &[u8]) -> (r: Option<Transaction>)
        requires
            self.wf(),
        ensures
            match r {
                Some(tx) => exists|i: int|
                    0 <= i < self.mempool_view().len() && (#[trigger] self.mempool_view()[i])
                        == tx@ && self.mempool_view()[i].signature == sig@,
                None => forall|i: int|
                    0 <= i < self.mempool_view().len() ==> (
                    #[trigger] self.mempool_view()[i].signature) != sig@,
            },
    {
        self.mempool.get(sig)
    }

    /// Index of the block with header `h`, if any.
    fn find_block_index(&self, h: &[u8]) -> (r: Option<usize>)
        ensures
            match r {
                Some(i) => find_header(self.blocks_view(), h@) == i && i
                    < self.blocks_view().len(),
                None => find_header(self.blocks_view(), h@) == -1,
            },
    {
        let mut i: usize = 0;
        while i < self.blocks.len()
            invariant
                i <= self.blocks@.len(),
                forall|j: int| 0 <= j < i ==> (#[trigger] self.blocks_view()[j].header) != h@,
            decreases self.blocks@.len() - i,
        {
            if bytes_eq(self.blocks[i].header.as_slice(), h) {
                proof {
                    lemma_find_header_char(self.blocks_view(), h@, i as int);
                }
                return Some(i);
            }
            i = i + 1;
        }
        proof {
            lemma_find_header_props(self.blocks_view(), h@);
            if find_header(self.blocks_view(), h@) >= 0 {
                assert(self.blocks_view()[find_header(self.blocks_view(), h@)].header == h@);
            }
        }
        None
    }

    /// Follows `previous_block_header` links from the block with header
    /// `from_header` toward genesis, newest first, stopping before the block
    /// with header `stop_header` (exclusive) or at the chain root
    /// (inclusive).  The returned path's links form a strictly decreasing
    /// path toward genesis, and the walk always terminates.
    #[verifier::rlimit(50)]
    pub fn walk_back(&self, from_header: &[u8], stop_header: &[u8]) -> (r: Result<
        Vec<Block>,
        NodeError,
    >)
        requires
            self.wf(),
        ensures
            ({
                let c = self.blocks_view();
                let idx = find_header(c, from_header@);
                match r {
                    Ok(v) => walk_back_ok(c, from_header@, stop_header@, block_views(v@)),
                    Err(e) => idx == -1 && e == NodeError::StorageFailure,
                }
            }),
    {
        let idx = match self.find_block_index(from_header) {
            Some(i) => i,
            None => {
                return Err(NodeError::StorageFailure);
            },
        };
        let mut out: Vec<Block> = Vec::new();
        out.push(self.blocks[idx].duplicate());
        let mut j: usize = idx;
        let mut stopped: bool = false;
        while j > 0 && !stopped
            invariant
                chain_wf(self.blocks_view()),
                idx < self.blocks_view().len(),
                j <= idx,
                out@.len() == idx - j + 1,
                forall|k: int| 0 <= k < out@.len() ==> (#[trigger] out@[k]@)
                    == self.blocks_view()[idx - k],
                forall|m: int| j <= m < idx ==> (#[trigger] self.blocks_view()[m].header)
                    != stop_header@,
                stopped ==> j > 0 && self.blocks_view()[j - 1].header == stop_header@,
            decreases j, (if stopped { 0int } else { 1int }),
        {
            if bytes_eq(self.blocks[j - 1].header.as_slice(), stop_header) {
                stopped = true;
            } else {
                let ghost pre = out@;
                out.push(self.blocks[j - 1].duplicate());
                proof {
                    assert forall|k: int| 0 <= k < out@.len() implies (#[trigger] out@[k]@)
                        == self.blocks_view()[idx - k] by {
                        if k < pre.len() {
                            assert(out@[k] == pre[k]);
                        }
                    }
                }
                j = j - 1;
            }
        }
        proof {
            let c = self.blocks_view();
            let bv = block_views(out@);
            assert forall|k: int| 0 <= k < bv.len() implies (#[trigger] bv[k]) == c[idx - k] by {
                assert(bv[k] == out@[k]@);
            }
            assert forall|k: int| 0 <= k < bv.len() - 1 implies (
            #[trigger] bv[k].previous_block_header) == bv[k + 1].header by {
                assert(bv[k] == c[idx - k]);
                assert(bv[k + 1] == c[idx - k - 1]);
                assert(c[idx - k].previous_block_header == c[idx - k - 1].header);
            }
        }
        Ok(out)
    }
}

impl Block {
    /// Stores the block under its own header, updates the chain tip pointer,
    /// and appends it to the chain.  The block must extend the current tip
    /// with a header the chain does not hold yet: this precondition is part
    /// of the flagged hardening decision described on `persist_incoming` --
    /// the permissive protocol would persist any block, at the price of a
    /// capturable tip and a chain whose backward walk need not terminate.
    #[verifier::rlimit(100)]
    #[verifier::spinoff_prover]
    pub fn save_to_blockchain(&self, state: &mut NodeState) -> (r: Result<(), NodeError>)
        requires
            old(state).wf(),
            block_wf(self@),
            self@.previous_block_header == tip(old(state).blocks_view()),
            forall|i: int|
                0 <= i < old(state).blocks_view().len() ==> (#[trigger] old(
                    state,
                ).blocks_view()[i].header) != self@.header,
        ensures
            final(state).wf(),
            final(state).is_assembler() == old(state).is_assembler(),
            final(state).mempool_view() == old(state).mempool_view(),
            match r {
                Ok(()) => {
                    &&& final(state).blocks_view() == old(state).blocks_view().push(self@)
                    &&& final(state).store() == old(state).store().insert(
                        self@.header,
                        block_enc(self@),
                    ).insert(key_last_header(), self@.header)
                },
                Err(e) => {
                    &&& e == NodeError::StorageFailure
                    &&& final(state).blocks_view() == old(state).blocks_view()
                },
            },
    {
        let value = self.to_bytes();
        proof {
            assert(key_last_header().len() == 17);
        }
        match keyvalue::insert(&mut state.db, self.header.as_slice(), value.as_slice()) {
            Ok(()) => {},
            Err(e) => {
                return Err(e);
            },
        }
        let tip_key = key_last_header_bytes();
        match keyvalue::insert(&mut state.db, tip_key.as_slice(), self.header.as_slice()) {
            Ok(()) => {},
            Err(e) => {
                return Err(e);
            },
        }
        let ghost pre = state.blocks_view();
        state.blocks.push(self.duplicate());
        proof {
            assert(state.blocks_view() =~= pre.push(self@));
            lemma_chain_push_wf(pre, self@);
        }
        Ok(())
    }
}

/// Appending a fresh block that extends the tip keeps the chain well-formed.
proof fn lemma_chain_push_wf(c: Seq<BlockView>, b: BlockView)
    requires
        chain_wf(c),
        block_wf(b),
        b.previous_block_header == tip(c),
        forall|i: int| 0 <= i < c.len() ==> (#[trigger] c[i].header) != b.header,
    ensures
        chain_wf(c.push(b)),
{
    let c2 = c.push(b);
    assert forall|i: int| 0 <= i < c2.len() implies block_wf(#[trigger] c2[i]) by {
        if i < c.len() {
            assert(c2[i] == c[i]);
        }
    }
    if c2.len() > 0 {
        if c.len() > 0 {
            assert(c2[0] == c[0]);
        }
    }
    assert forall|i: int| 1 <= i < c2.len() implies (#[trigger] c2[i].previous_block_header)
        == c2[i - 1].header by {
        if i < c.len() {
            assert(c2[i] == c[i] && c2[i - 1] == c[i - 1]);
        } else {
            assert(c2[i] == b);
            assert(c2[i - 1] == c[i - 1]);
        }
    }
    assert forall|i: int, j: int| 0 <= i < j < c2.len() implies (#[trigger] c2[i].header) != (
    #[trigger] c2[j].header) by {
        if j < c.len() {
            assert(c2[i] == c[i] && c2[j] == c[j]);
        } else {
            assert(c2[i] == c[i] && c2[j] == b);
        }
    }
}

impl NodeState {
    /// Persists a block received from a peer: checks that it is structurally
    /// well-formed, extends the current tip, and carries a fresh header,
    /// then stores it under its own header and repoints the tip.
    ///
    /// DELIBERATE DEVIATION, for the record: the permissive protocol
    /// persists a propagated block directly, with no validation against
    /// local state.  That behavior is a security gap -- an arbitrary block
    /// could capture the tip pointer and break the chain's linkage, and
    /// with it the guarantee that a backward walk terminates.  This node
    /// takes the flagged-hardening side of that trade: it validates
    /// structure, tip extension and header freshness before persisting.
    /// This changes compatibility with peers that rely on the permissive
    /// behavior; interoperating with them requires accepting their blocks
    /// in chain order, as the chain-sync reply handler does.
    pub fn persist_incoming(&mut self, block: &Block) -> (r: Result<(), NodeError>)
        requires
            old(self).wf(),
        ensures
            final(self).wf(),
            final(self).is_assembler() == old(self).is_assembler(),
            final(self).mempool_view() == old(self).mempool_view(),
            block_wf(block@) && block@.previous_block_header == tip(old(self).blocks_view())
                && (forall|i: int|
                0 <= i < old(self).blocks_view().len() ==> (#[trigger] old(
                    self,
                ).blocks_view()[i].header) != block@.header) ==> (r is Ok || r == Err::<
                (),
                NodeError,
            >(NodeError::StorageFailure)),
            match r {
                Ok(()) => {
                    &&& block_wf(block@)
                    &&& block@.previous_block_header == tip(old(self).blocks_view())
                    &&& final(self).blocks_view() == old(self).blocks_view().push(block@)
                    &&& final(self).store() == old(self).store().insert(
                        block@.header,
                        block_enc(block@),
                    ).insert(key_last_header(), block@.header)
                },
                Err(e) => {
                    &&& final(self).blocks_view() == old(self).blocks_view()
                    &&& (e == NodeError::MalformedPayload ==> !(block_wf(block@)
                        && block@.previous_block_header == tip(old(self).blocks_view()) && forall|
                        i: int,
                    |
                        0 <= i < old(self).blocks_view().len() ==> (#[trigger] old(
                            self,
                        ).blocks_view()[i].header) != block@.header))
                    &&& (e == NodeError::MalformedPayload || e == NodeError::StorageFailure)
                },
            },
    {
        if !block_check_wf(block) {
            return Err(NodeError::MalformedPayload);
        }
        let current_tip = self.tip_header();
        if !bytes_eq(block.previous_block_header.as_slice(), current_tip.as_slice()) {
            return Err(NodeError::MalformedPayload);
        }
        match self.find_block_index(block.header.as_slice()) {
            Some(_) => {
                proof {
                    lemma_find_header_props(self.blocks_view(), block@.header);
                }
                return Err(NodeError::MalformedPayload);
            },
            None => {
                proof {
                    lemma_find_header_props(self.blocks_view(), block@.header);
                }
            },
        }
        block.save_to_blockchain(self)
    }
}

/// Runtime check of a block's structural well-formedness.
pub fn block_check_wf(b: &Block) -> (r: bool)
    ensures
        r == block_wf(b@),
{
    if b.header.len() != 32 || b.issuer.len() != 33 || b.issuer_signature.len() != 64 {
        return false;
    }
    if !(b.previous_block_header.len() == 32 || b.previous_block_header.len() == 0) {
        return false;
    }
    if (b.body.len() as u64) > u64::MAX - 9 {
        return false;
    }
    match &b.federation_signature {
        FederationSignature::Signed(sv) => {
            if sv.len() != 64 {
                return false;
            }
        },
        FederationSignature::Unsigned => {},
    }
    ledger_check_wf(&b.addresses_state)
}

/// Runtime check of a ledger snapshot's structural well-formedness.
pub fn ledger_check_wf(st: &AddressesState) -> (r: bool)
    ensures
        r == ledger_wf(st@),
{
    let mut i: usize = 0;
    while i < st.state.len()
        invariant
            i <= st.state@.len(),
            forall|j: int| 0 <= j < i ==> (#[trigger] st@[j].0.len()) == 33,
            forall|j: int| 0 <= j < i ==> crate::ledger::addr_wf(#[trigger] st@[j].1),
        decreases st.state@.len() - i,
    {
        proof {
            assert(st@[i as int].0 == st.state@[i as int].0@);
            assert(st@[i as int].1 == st.state@[i as int].1@);
        }
        if st.state[i].0.len() != 33 {
            assert(st@[i as int].0.len() != 33);
            return false;
        }
        if !addr_check_wf(&st.state[i].1) {
            assert(!crate::ledger::addr_wf(st@[i as int].1));
            return false;
        }
        assert(st@[i as int].0.len() == 33);
        assert(crate::ledger::addr_wf(st@[i as int].1));
        i = i + 1;
    }
    proof {
        assert(st@.len() == st.state@.len());
        assert(st@.len() <= u64::MAX);
    }
    true
}

/// Runtime check of a ledger entry's structural well-formedness.
pub fn addr_check_wf(a: &crate::ledger::Address) -> (r: bool)
    ensures
        r == crate::ledger::addr_wf(a@),
{
    if a.last_transaction.len() != 64 {
        return false;
    }
    let mut i: usize = 0;
    while i < a.linked_addresses.len()
        invariant
            i <= a.linked_addresses@.len(),
            forall|j: int| 0 <= j < i ==> (#[trigger] a@.linked_addresses[j].len()) == 33,
        decreases a.linked_addresses@.len() - i,
    {
        if a.linked_addresses[i].address.len() != 33 {
            proof {
                assert(a@.linked_addresses[i as int] == a.linked_addresses@[i as int].address@);
            }
            return false;
        }
        i = i + 1;
    }
    true
}

/// The transaction list a block's body parses to (meaningful when the body
/// is loadable).
pub open spec fn parsed_body(b: BlockView) -> Seq<TransactionView> {
    (dec_body_at(b.body, 0)->Some_0).0
}

/// Whether every block in `c` has a loadable body (complete, well-formed,
/// matching its header digest).
pub open spec fn all_bodies_loadable(c: Seq<BlockView>) -> bool {
    forall|j: int| 0 <= j < c.len() ==> loadable((#[trigger] c[j]).body, c[j].header)
}

/// A well-formed node's chain is well-formed: every block is structurally
/// sound, the genesis link is empty, each later block links to its
/// predecessor, and headers are unique.  Exposed so callers can reason
/// about the chain behind the opaque node invariant.
pub proof fn lemma_wf_chain(state: &NodeState)
    requires
        state.wf(),
    ensures
        chain_wf(state.blocks_view()),
{
}

impl Block {
    /// Walks the chain from the tip, reconstructs each block's transaction
    /// set from its body, and probes it for the transaction carrying
    /// `signature`; stops at the first block that holds it.
    #[verifier::rlimit(100)]
    #[verifier::spinoff_prover]
    pub fn search_transaction_in_blockchain(signature: &[u8], state: &NodeState) -> (r: Result<
        Option<Transaction>,
        NodeError,
    >)
        requires
            state.wf(),
        ensures
            ({
                let c = state.blocks_view();
                match r {
                    Ok(found) => match found {
                        Some(tx) => tx@.signature == signature@ && exists|j: int|
                            #![auto]
                            0 <= j < c.len() && loadable(c[j].body, c[j].header) && (exists|i: int|
                                0 <= i < parsed_body(c[j]).len() && #[trigger] parsed_body(
                                    c[j],
                                )[i] == tx@) && (forall|m: int, i2: int|
                                #![auto]
                                j < m < c.len() && 0 <= i2 < parsed_body(c[m]).len()
                                    ==> parsed_body(c[m])[i2].signature != signature@),
                        None => all_bodies_loadable(c) && forall|j: int, i: int|
                            #![auto]
                            0 <= j < c.len() && 0 <= i < parsed_body(c[j]).len() ==> parsed_body(
                                c[j],
                            )[i].signature != signature@,
                    },
                    Err(e) => e == NodeError::MalformedPayload && exists|j: int|
                        0 <= j < c.len() && !loadable((#[trigger] c[j]).body, c[j].header),
                }
            }),
    {
        let ghost c = state.blocks_view();
        let mut j: usize = state.blocks.len();
        while j > 0
            invariant
                c == state.blocks_view(),
                j <= c.len(),
                forall|m: int| j <= m < c.len() ==> loadable((#[trigger] c[m]).body, c[m].header),
                forall|m: int, i: int|
                    #![auto]
                    j <= m < c.len() && 0 <= i < parsed_body(c[m]).len() ==> parsed_body(
                        c[m],
                    )[i].signature != signature@,
            decreases j,
        {
            let b = &state.blocks[j - 1];
            let view = match Mempool::load_from(b.body.as_slice(), b.header.as_slice()) {
                Ok(v) => v,
                Err(_) => {
                    proof {
                        assert(!loadable(c[j - 1].body, c[j - 1].header));
                    }
                    return Err(NodeError::MalformedPayload);
                },
            };
            match view.get(signature) {
                Some(tx) => {
                    proof {
                        let i = choose|i: int|
                            0 <= i < view@.len() && (#[trigger] view@[i]) == tx@
                                && view@[i].signature == signature@;
                        assert(parsed_body(c[j - 1]) == view@);
                        assert(parsed_body(c[j - 1])[i] == tx@);
                    }
                    return Ok(Some(tx));
                },
                None => {
                    proof {
                        assert(parsed_body(c[j - 1]) == view@);
                    }
                },
            }
            j = j - 1;
        }
        Ok(None)
    }

    /// Assembles a block from the current pending set: the trie's root
    /// digest becomes the header, the serialized pending set the body, and
    /// the ledger is derived by replaying the pending transactions, sorted
    /// by signature, against the newest block's snapshot.  The header is
    /// signed with the local secret key and co-signed with the federation
    /// key when one is stored.
    pub fn create_from_local_trie(state: &mut NodeState) -> (r: Result<Block, NodeError>)
        requires
            old(state).wf(),
        ensures
            final(state).wf(),
            final(state).blocks_view() == old(state).blocks_view(),
            final(state).mempool_view() == old(state).mempool_view(),
            final(state).store() == old(state).store(),
            final(state).is_assembler() == old(state).is_assembler(),
            match r {
                Ok(b) => assembled_ok(
                    b@,
                    old(state).mempool_view(),
                    old(state).blocks_view(),
                    old(state).store(),
                ),
                Err(e) => e == NodeError::StorageFailure || e == NodeError::MissingLocalKey,
            },
    {
        let timestamp = clock::now_timestamp();
        proof {
            lemma_mempool_items_wf(&state.mempool);
        }
        let header = state.mempool.root();
        let body = state.mempool.body_bytes();
        if (body.len() as u64) > u64::MAX - 9 {
            return Err(NodeError::StorageFailure);
        }
        let sk = match local_secret_key(&state.db) {
            Ok(k) => k,
            Err(e) => {
                return Err(e);
            },
        };
        let issuer = generate_public_key(sk.as_slice());
        let previous_block_header = state.tip_header();
        let previous_state = if state.blocks.len() == 0 {
            AddressesState::new()
        } else {
            state.blocks[state.blocks.len() - 1].addresses_state.duplicate()
        };
        proof {
            if state.blocks@.len() > 0 {
                assert(state.blocks_view()[state.blocks_view().len() - 1] == state.blocks_view().last());
            }
            assert(previous_state@ == prev_ledger(state.blocks_view()));
        }
        let txs = state.mempool.get_all();
        proof {
            assert(views_of(txs@) =~= state.mempool_view());
        }
        let sorted = sort_transactions(txs);
        if (previous_state.state.len() as u64) > u64::MAX / 4 || (sorted.len() as u64) > u64::MAX
            / 8 {
            return Err(NodeError::StorageFailure);
        }
        proof {
            lemma_sort_by_sig_wf(state.mempool_view());
            assert(ledger_wf(previous_state@)) by {
                if state.blocks_view().len() > 0 {
                    assert(block_wf(state.blocks_view().last()));
                }
            }
            lemma_derive_spec_wf(previous_state@, sort_by_sig(state.mempool_view()));
        }
        let addresses_state = crate::ledger::derive(previous_state, &sorted);
        proof {
            assert(sorted@.map_values(|t: Transaction| t@) =~= views_of(sorted@));
            assert(views_of(sorted@) == sort_by_sig(old(state).mempool_view()));
            if old(state).blocks_view().len() > 0 {
                assert(block_wf(old(state).blocks_view().last()));
            }
        }
        let signing = block_signing_bytes_exec(timestamp, header.as_slice());
        let issuer_signature = new_signature(signing.as_slice(), sk.as_slice());
        let fed_key = key_federated_bytes();
        let federation_signature = match keyvalue::get(&state.db, fed_key.as_slice()) {
            Ok(Some(fsk)) => {
                if secret_key_ok(fsk.as_slice()) {
                    FederationSignature::Signed(new_signature(signing.as_slice(), fsk.as_slice()))
                } else {
                    return Err(NodeError::MissingLocalKey);
                }
            },
            Ok(None) => FederationSignature::Unsigned,
            Err(e) => {
                return Err(e);
            },
        };
        Ok(
            Block {
                header,
                issuer,
                addresses_state,
                body,
                timestamp,
                previous_block_header,
                issuer_signature,
                federation_signature,
            },
        )
    }
}

/// The admission gate for locally received transactions.
pub struct LocalBlock {
}

impl LocalBlock {
    /// Verifies a transaction's signature, admits it to the mempool, and,
    /// on the node that closes blocks, assembles and persists a block when
    /// the pending count reaches exactly the threshold.  The returned block,
    /// when one was closed, is for the caller to broadcast.
    pub fn insert_transaction(transaction: Transaction, state: &mut NodeState) -> (r: Result<
        Option<Block>,
        NodeError,
    >)
        requires
            old(state).wf(),
        ensures
            final(state).wf(),
            final(state).is_assembler() == old(state).is_assembler(),
            r == Err::<Option<Block>, NodeError>(NodeError::AuthenticationFailure) <==> !sig_valid(
                tx_signing_bytes(transaction.timestamp, transaction@.data),
                transaction@.pk,
                transaction@.signature,
            ),
            r == Err::<Option<Block>, NodeError>(NodeError::MalformedPayload) <==> (sig_valid(
                tx_signing_bytes(transaction.timestamp, transaction@.data),
                transaction@.pk,
                transaction@.signature,
            ) && !tx_wf(transaction@)),
            (r == Err::<Option<Block>, NodeError>(NodeError::AuthenticationFailure) || r == Err::<
                Option<Block>,
                NodeError,
            >(NodeError::MalformedPayload)) ==> *final(state) == *old(state),
            r is Err ==> final(state).blocks_view() == old(state).blocks_view(),
            sig_valid(
                tx_signing_bytes(transaction.timestamp, transaction@.data),
                transaction@.pk,
                transaction@.signature,
            ) && tx_wf(transaction@) && !(old(state).is_assembler()
                && crate::merkle::mempool_upsert(old(state).mempool_view(), transaction@).len()
                == MEMPOOL_THRESHOLD) ==> r == Ok::<Option<Block>, NodeError>(None),
            match r {
                Ok(closed) => {
                    &&& sig_valid(
                        tx_signing_bytes(transaction.timestamp, transaction@.data),
                        transaction@.pk,
                        transaction@.signature,
                    )
                    &&& tx_wf(transaction@)
                    &&& ({
                        let admitted = crate::merkle::mempool_upsert(
                            old(state).mempool_view(),
                            transaction@,
                        );
                        match closed {
                            Some(b) => {
                                &&& old(state).is_assembler()
                                &&& admitted.len() == MEMPOOL_THRESHOLD
                                &&& final(state).mempool_view() == Seq::<TransactionView>::empty()
                                &&& final(state).blocks_view() == old(state).blocks_view().push(
                                    b@,
                                )
                                &&& final(state).store() == old(state).store().insert(
                                    b@.header,
                                    block_enc(b@),
                                ).insert(key_last_header(), b@.header)
                                &&& assembled_ok(
                                    b@,
                                    admitted,
                                    old(state).blocks_view(),
                                    old(state).store(),
                                )
                            },
                            None => {
                                &&& final(state).mempool_view() == admitted
                                &&& final(state).blocks_view() == old(state).blocks_view()
                                &&& final(state).store() == old(state).store()
                                &&& !(old(state).is_assembler() && admitted.len()
                                    == MEMPOOL_THRESHOLD)
                            },
                        }
                    })
                },
                Err(_) => true,
            },
    {
        if !transaction.verify() {
            return Err(NodeError::AuthenticationFailure);
        }
        if !tx_check_wf(&transaction) {
            return Err(NodeError::MalformedPayload);
        }
        state.mempool.insert(transaction);
        let assembler = state.assembler;
        if assembler && state.mempool.len() == MEMPOOL_THRESHOLD {
            let block = match Block::create_from_local_trie(state) {
                Ok(b) => b,
                Err(e) => {
                    return Err(e);
                },
            };
            match state.find_block_index(block.header.as_slice()) {
                Some(_) => {
                    proof {
                        lemma_find_header_props(state.blocks_view(), block@.header);
                    }
                    return Err(NodeError::StorageFailure);
                },
                None => {
                    proof {
                        lemma_find_header_props(state.blocks_view(), block@.header);
                    }
                },
            }
            match block.save_to_blockchain(state) {
                Ok(()) => {},
                Err(e) => {
                    return Err(e);
                },
            }
            state.mempool.reset();
            Ok(Some(block))
        } else {
            Ok(None)
        }
    }
}

/// Starts a fresh chain: resets the pending set, creates and admits the
/// chain's first transaction (the federation key initialization), assembles
/// the genesis block, and persists it.  The genesis block's parent link is
/// the previous tip -- empty on a fresh node -- and it carries a federation
/// co-signature, since the federation key was just stored.
pub fn initialize_new_chain(state: &mut NodeState) -> (r: Result<(), NodeError>)
    requires
        old(state).wf(),
    ensures
        final(state).wf(),
        final(state).is_assembler() == old(state).is_assembler(),
        match r {
            Ok(()) => {
                &&& final(state).blocks_view().len() == old(state).blocks_view().len() + 1
                &&& final(state).mempool_view().len() == 1
                &&& ({
                    let b = final(state).blocks_view().last();
                    let pool = final(state).mempool_view();
                    &&& b.previous_block_header == tip(old(state).blocks_view())
                    &&& b.federation_signature is Signed
                    &&& pool[0].data is Type6
                    &&& pool[0].balance_variation == i64::MAX
                    &&& b.header == root_of(items_map(pool))
                    &&& b.body == body_enc(pool)
                    &&& b.addresses_state == derive_spec(
                        prev_ledger(old(state).blocks_view()),
                        sort_by_sig(pool),
                    )
                    &&& final(state).store().contains_key(b.header)
                    &&& final(state).store()[b.header] == block_enc(b)
                    &&& final(state).store().contains_key(key_last_header())
                    &&& final(state).store()[key_last_header()] == b.header
                    &&& final(state).store().contains_key(key_federated()) && sk_ok(
                        final(state).store()[key_federated()],
                    )
                })
            },
            Err(e) => e == NodeError::StorageFailure || e == NodeError::MissingLocalKey,
        },
{
    state.mempool.reset();
    let transaction = match Transaction::generate(6, &mut state.db) {
        Ok(t) => t,
        Err(e) => {
            return Err(e);
        },
    };
    let ghost tx_view = transaction@;
    state.mempool.insert(transaction);
    proof {
        crate::merkle::lemma_upsert_fresh(Seq::<TransactionView>::empty(), tx_view);
        assert(state.mempool_view() =~= seq![tx_view]);
    }
    let block = match Block::create_from_local_trie(state) {
        Ok(b) => b,
        Err(e) => {
            return Err(e);
        },
    };
    match state.find_block_index(block.header.as_slice()) {
        Some(_) => {
            proof {
                lemma_find_header_props(state.blocks_view(), block@.header);
            }
            return Err(NodeError::StorageFailure);
        },
        None => {
            proof {
                lemma_find_header_props(state.blocks_view(), block@.header);
            }
        },
    }
    match block.save_to_blockchain(state) {
        Ok(()) => {},
        Err(e) => {
            return Err(e);
        },
    }
    proof {
        assert(final(state).blocks_view().last() == block@);
    }
    Ok(())
}

impl NodeState {
    /// Shared access to the node's store handle.
    pub fn store_ref(&self) -> (r: &sled::Db)
        ensures
            db_view(*r) == self.store(),
    {
        &self.db
    }

    /// Registers (or re-registers) a peer in this node's stored registry.
    pub fn neighbors_add(&mut self, src: Vec<u8>, node: crate::neighbors::Node) -> (r: Result<
        (),
        NodeError,
    >)
        requires
            old(self).wf(),
            src@.len() + 9 <= u64::MAX,
            node.pk@.len() + 9 <= u64::MAX,
        ensures
            final(self).wf(),
            final(self).blocks_view() == old(self).blocks_view(),
            final(self).mempool_view() == old(self).mempool_view(),
            final(self).is_assembler() == old(self).is_assembler(),
            match r {
                Ok(()) => {
                    &&& crate::neighbors::neighbors_of_store(old(self).store()) is Some
                    &&& crate::neighbors::neighbors_of_store(final(self).store()) == Some(
                        crate::neighbors::nb_upsert(
                            crate::neighbors::neighbors_of_store(old(self).store())->Some_0,
                            src@,
                            node@,
                        ),
                    )
                    &&& crate::neighbors::nb_lookup(
                        crate::neighbors::neighbors_of_store(final(self).store())->Some_0,
                        src@,
                    ) == Some(node@)
                },
                Err(e) => e == NodeError::StorageFailure || (e == NodeError::MalformedPayload
                    && crate::neighbors::neighbors_of_store(old(self).store()) is None),
            },
    {
        crate::neighbors::Neighbors::add(src, node, &mut self.db)
    }

    /// Looks a peer up in this node's stored registry.
    pub fn neighbors_get(&mut self, src: &[u8]) -> (r: Result<
        Option<crate::neighbors::Node>,
        NodeError,
    >)
        requires
            old(self).wf(),
        ensures
            final(self).wf(),
            final(self).blocks_view() == old(self).blocks_view(),
            final(self).mempool_view() == old(self).mempool_view(),
            final(self).is_assembler() == old(self).is_assembler(),
            match r {
                Ok(o) => crate::neighbors::neighbors_of_store(final(self).store()) is Some
                    && crate::neighbors::neighbors_of_store(final(self).store())
                    == crate::neighbors::neighbors_of_store(old(self).store()) && (
                match o {
                    Some(node) => crate::neighbors::nb_lookup(
                        crate::neighbors::neighbors_of_store(final(self).store())->Some_0,
                        src@,
                    ) == Some(node@),
                    None => crate::neighbors::nb_lookup(
                        crate::neighbors::neighbors_of_store(final(self).store())->Some_0,
                        src@,
                    ) is None,
                }),
                Err(e) => e == NodeError::StorageFailure || (e == NodeError::MalformedPayload
                    && crate::neighbors::neighbors_of_store(final(self).store()) is None
                    && final(self).store() == old(self).store()),
            },
    {
        crate::neighbors::Neighbors::get(src, &mut self.db)
    }

    /// Reads this node's whole stored registry.
    pub fn neighbors_restore(&mut self) -> (r: Result<crate::neighbors::Neighbors, NodeError>)
        requires
            old(self).wf(),
        ensures
            final(self).wf(),
            final(self).blocks_view() == old(self).blocks_view(),
            final(self).mempool_view() == old(self).mempool_view(),
            final(self).is_assembler() == old(self).is_assembler(),
            match r {
                Ok(nb) => crate::neighbors::neighbors_of_store(final(self).store()) == Some(nb@),
                Err(e) => e == NodeError::StorageFailure || e == NodeError::MalformedPayload,
            },
    {
        crate::neighbors::Neighbors::restore(&mut self.db)
    }
}

/// Law: admitting a transaction whose signature is not yet pending grows
/// the pending set by exactly one.  With the admission gate's guarantee
/// that a block is closed exactly when the pending count reaches the
/// threshold -- and that closing resets the count to zero -- admitting
/// exactly the threshold count of fresh transactions closes exactly one
/// block: none before the last admission, one at it, and none after.
pub proof fn lemma_threshold_crossing(pool: Seq<TransactionView>, t: TransactionView)
    requires
        forall|i: int| 0 <= i < pool.len() ==> (#[trigger] pool[i].signature) != t.signature,
    ensures
        crate::merkle::mempool_upsert(pool, t).len() == pool.len() + 1,
{
    crate::merkle::lemma_upsert_fresh(pool, t);
}

} // verus!
