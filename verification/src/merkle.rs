//! The trie mempool: a content-addressed store of pending transactions,
//! keyed by transaction signature, backed by a Merkle Patricia Trie from the
//! cita_trie library.
//!
//! The trie supplies the root digest that identifies a block's transaction
//! set.  `trie_view` names the contents of a trie handle and `root_of` names
//! the root digest the trie computes over given contents.  Alongside the
//! trie, the mempool keeps the transaction list itself, so enumeration and
//! serialization are verified code; the invariant ties the two together.

use vstd::prelude::*;
use cita_trie::Trie as _;
use crate::codec::{
    u64_le,
    dec_u64_at,
    enc_u64,
    dec_u64,
    bytes_eq,
    items_enc,
    dec_items_at,
    lemma_dec_items_of_enc,
    lemma_items_enc_push,
    lemma_dec_u64_of_enc,
};
use crate::errors::NodeError;
use crate::transactions::{
    Transaction,
    TransactionView,
    tx_wf,
    tx_enc,
    dec_tx_at,
    decode_transaction,
    encode_transaction,
    lemma_dec_tx_of_enc,
};

verus! {

// ---------------------------------------------------------------------------
// Trusted view of the outside trie
// ---------------------------------------------------------------------------

/// A handle on the outside Merkle Patricia Trie.  Verus cannot accept the
/// trie type's own trait bounds in a type declaration, so the handle hides
/// the trie in a field and the wrappers below carry its contract.
#[verifier::external_body]
pub struct TrieHandle {
    trie: cita_trie::PatriciaTrie<cita_trie::MemoryDB, hasher::HasherKeccak>,
}

/// The contents of the trie behind `t`: a map from byte keys to byte values.
pub uninterp spec fn trie_view(t: TrieHandle) -> Map<Seq<u8>, Seq<u8>>;

/// The Merkle root digest a trie computes over the contents `m`.  Names
/// `cita_trie::PatriciaTrie::root`, a function of the contents alone.
pub uninterp spec fn root_of(m: Map<Seq<u8>, Seq<u8>>) -> Seq<u8>;

/// Builds an empty trie over a fresh in-memory node store.
///
/// Relies on `cita_trie::PatriciaTrie::new` with a new `MemoryDB`: the trie
/// starts empty.
#[verifier::external_body]
fn trie_new() -> (r: TrieHandle)
    ensures
        ({ let t = r; trie_view(t) == Map::<Seq<u8>, Seq<u8>>::empty() }),
{
    let db = std::sync::Arc::new(cita_trie::MemoryDB::new(true));
    let keccak = std::sync::Arc::new(hasher::HasherKeccak::new());
    TrieHandle { trie: cita_trie::PatriciaTrie::new(db, keccak) }
}

/// Stores `value` under `key`, replacing any previous value.
///
/// Relies on `cita_trie::Trie::insert`: a non-empty value is bound to the
/// key and all other keys are untouched.  With the in-memory node store the
/// operation cannot fail.  An empty value would delete the key instead, so
/// it is excluded.
#[verifier::external_body]
fn trie_insert(t: &mut TrieHandle, key: &[u8], value: &[u8])
    requires
        value@.len() > 0,
    ensures
        trie_view(*final(t)) == trie_view(*old(t)).insert(key@, value@),
{
    t.trie.insert(key.to_vec(), value.to_vec()).unwrap();
}

/// Looks `key` up in the trie.
///
/// Relies on `cita_trie::Trie::get`: returns the value bound to `key`, or
/// `None` when the trie has no such key.  With the in-memory node store and
/// nodes written by this module the operation cannot fail.
#[verifier::external_body]
fn trie_get(t: &TrieHandle, key: &[u8]) -> (r: Option<Vec<u8>>)
    ensures
        match r {
            Some(v) => trie_view(*t).contains_key(key@) && v@ == trie_view(*t)[key@],
            None => !trie_view(*t).contains_key(key@),
        },
{
    t.trie.get(key).unwrap()
}

/// Whether the trie holds `key`.
///
/// Relies on `cita_trie::Trie::contains`, with the same caveats as `get`.
#[verifier::external_body]
fn trie_contains(t: &TrieHandle, key: &[u8]) -> (r: bool)
    ensures
        r == trie_view(*t).contains_key(key@),
{
    t.trie.contains(key).unwrap()
}

/// Commits the trie and returns its 32-byte Merkle root digest.
///
/// Relies on `cita_trie::Trie::root`: the digest is a function of the
/// contents alone (named `root_of`), committing does not change the
/// contents, and a keccak-256 digest is 32 bytes.
#[verifier::external_body]
fn trie_root(t: &mut TrieHandle) -> (r: Vec<u8>)
    ensures
        trie_view(*final(t)) == trie_view(*old(t)),
        r@ == root_of(trie_view(*old(t))),
        r@.len() == 32,
{
    t.trie.root().unwrap()
}

// ---------------------------------------------------------------------------
// The transaction map model
// ---------------------------------------------------------------------------

/// The trie contents induced by a transaction list: each transaction's
/// canonical encoding, keyed by its signature.
pub open spec fn items_map(s: Seq<TransactionView>) -> Map<Seq<u8>, Seq<u8>>
    decreases s.len(),
{
    if s.len() == 0 {
        Map::empty()
    } else {
        items_map(s.drop_last()).insert(s.last().signature, tx_enc(s.last()))
    }
}

/// No two transactions in the list share a signature.
pub open spec fn distinct_sigs(s: Seq<TransactionView>) -> bool {
    forall|i: int, j: int|
        0 <= i < j < s.len() ==> (#[trigger] s[i].signature) != (#[trigger] s[j].signature)
}

/// Every listed transaction is bound to its encoding in the induced map.
pub proof fn lemma_items_map_index(s: Seq<TransactionView>, i: int)
    requires
        distinct_sigs(s),
        0 <= i < s.len(),
    ensures
        items_map(s).contains_key(s[i].signature),
        items_map(s)[s[i].signature] == tx_enc(s[i]),
    decreases s.len(),
{
    if i < s.len() - 1 {
        assert(s.drop_last()[i] == s[i]);
        assert(distinct_sigs(s.drop_last())) by {
            assert forall|a: int, b: int|
                0 <= a < b < s.drop_last().len() implies (#[trigger] s.drop_last()[a].signature)
                != (#[trigger] s.drop_last()[b].signature) by {
                assert(s.drop_last()[a] == s[a] && s.drop_last()[b] == s[b]);
            }
        }
        lemma_items_map_index(s.drop_last(), i);
        assert(s[i].signature != s.last().signature);
    }
}

/// A signature no listed transaction carries is not in the induced map.
pub proof fn lemma_items_map_absent(s: Seq<TransactionView>, k: Seq<u8>)
    requires
        forall|i: int| 0 <= i < s.len() ==> (#[trigger] s[i].signature) != k,
    ensures
        !items_map(s).contains_key(k),
    decreases s.len(),
{
    if s.len() > 0 {
        assert forall|i: int| 0 <= i < s.drop_last().len() implies (
        #[trigger] s.drop_last()[i].signature) != k by {
            assert(s.drop_last()[i] == s[i]);
        }
        lemma_items_map_absent(s.drop_last(), k);
        assert(s.last() == s[s.len() - 1]);
    }
}

// ---------------------------------------------------------------------------
// The mempool
// ---------------------------------------------------------------------------

/// The pending transaction set: the Merkle trie plus the transaction list it
/// holds.
pub struct Mempool {
    trie: TrieHandle,
    items: Vec<Transaction>,
}

impl View for Mempool {
    type V = Seq<TransactionView>;

    closed spec fn view(&self) -> Seq<TransactionView> {
        Seq::new(self.items@.len(), |i: int| self.items@[i]@)
    }
}

impl Mempool {
    /// The invariant: the trie's contents are exactly the listed
    /// transactions' encodings keyed by signature, the transactions are
    /// well-formed, and signatures are unique.
    pub closed spec fn wf(&self) -> bool {
        &&& trie_view(self.trie) == items_map(self@)
        &&& forall|i: int| 0 <= i < self@.len() ==> tx_wf(#[trigger] self@[i])
        &&& distinct_sigs(self@)
    }

    /// An empty mempool.
    pub fn new() -> (r: Mempool)
        ensures
            r.wf(),
            r@ == Seq::<TransactionView>::empty(),
    {
        let r = Mempool { trie: trie_new(), items: Vec::new() };
        proof {
            assert(r@ =~= Seq::<TransactionView>::empty());
            assert(trie_view(r.trie) =~= items_map(r@));
        }
        r
    }

    /// Replaces the mempool with an empty one; called after a block closes.
    pub fn reset(&mut self)
        ensures
            final(self).wf(),
            final(self)@ == Seq::<TransactionView>::empty(),
    {
        *self = Mempool::new();
    }

    /// The number of pending transactions.
    pub fn len(&self) -> (r: usize)
        ensures
            r == self@.len(),
    {
        self.items.len()
    }

    /// Index of the pending transaction carrying `sig`, if any.
    fn find_index(&self, sig: &[u8]) -> (r: Option<usize>)
        ensures
            match r {
                Some(i) => i < self@.len() && self@[i as int].signature == sig@,
                None => forall|i: int|
                    0 <= i < self@.len() ==> (#[trigger] self@[i].signature) != sig@,
            },
    {
        let mut i: usize = 0;
        while i < self.items.len()
            invariant
                i <= self.items@.len(),
                forall|j: int| 0 <= j < i ==> (#[trigger] self@[j].signature) != sig@,
            decreases self.items@.len() - i,
        {
            if bytes_eq(self.items[i].signature.as_slice(), sig) {
                return Some(i);
            }
            i = i + 1;
        }
        None
    }

    /// Admits `tx`: binds its encoding to its signature in the trie and the
    /// list, replacing a transaction already carrying the same signature.
    pub fn insert(&mut self, tx: Transaction)
        requires
            old(self).wf(),
            tx_wf(tx@),
        ensures
            final(self).wf(),
            mempool_upsert(old(self)@, tx@) == final(self)@,
    {
        let enc = crate::transactions::transaction_to_bytes(&tx);
        proof {
            assert(tx_enc(tx@).len() > 0);
        }
        let sig = crate::codec::copy_bytes(&tx.signature);
        trie_insert(&mut self.trie, sig.as_slice(), enc.as_slice());
        match self.find_index(sig.as_slice()) {
            Some(i) => {
                let ghost pre = self@;
                self.items.set(i, tx);
                proof {
                    assert(self@ =~= pre.update(i as int, tx@));
                    lemma_items_map_update(pre, i as int, tx@);
                    assert(trie_view(self.trie) =~= items_map(self@));
                }
            },
            None => {
                let ghost pre = self@;
                self.items.push(tx);
                proof {
                    assert(self@ =~= pre.push(tx@));
                    assert(self@.drop_last() =~= pre);
                    assert(trie_view(self.trie) =~= items_map(self@));
                }
            },
        }
    }

    /// Probes the trie for the transaction carrying `sig` and decodes it.
    pub fn get(&self, sig: &[u8]) -> (r: Option<Transaction>)
        requires
            self.wf(),
        ensures
            match r {
                Some(tx) => exists|i: int|
                    0 <= i < self@.len() && (#[trigger] self@[i]) == tx@ && self@[i].signature
                        == sig@,
                None => forall|i: int|
                    0 <= i < self@.len() ==> (#[trigger] self@[i].signature) != sig@,
            },
    {
        let bytes = match trie_get(&self.trie, sig) {
            Some(b) => b,
            None => {
                proof {
                    if exists|i: int| 0 <= i < self@.len() && (#[trigger] self@[i].signature)
                        == sig@ {
                        let i = choose|i: int|
                            0 <= i < self@.len() && (#[trigger] self@[i].signature) == sig@;
                        lemma_items_map_index(self@, i);
                    }
                }
                return None;
            },
        };
        proof {
            lemma_items_map_absent_converse(self@, sig@);
        }
        let ghost i = choose|i: int|
            0 <= i < self@.len() && (#[trigger] self@[i].signature) == sig@;
        proof {
            lemma_items_map_index(self@, i);
            assert(bytes@ == tx_enc(self@[i]));
            assert(bytes@.subrange(0, tx_enc(self@[i]).len() as int) =~= tx_enc(self@[i]));
            lemma_dec_tx_of_enc(bytes@, 0, self@[i]);
        }
        match decode_transaction(bytes.as_slice(), 0) {
            Some((tx, _)) => Some(tx),
            None => None,
        }
    }

    /// Whether the trie holds a transaction carrying `sig`.
    pub fn contains(&self, sig: &[u8]) -> (r: bool)
        requires
            self.wf(),
        ensures
            r == exists|i: int| 0 <= i < self@.len() && (#[trigger] self@[i].signature) == sig@,
    {
        let r = trie_contains(&self.trie, sig);
        proof {
            if r {
                lemma_items_map_absent_converse(self@, sig@);
            } else {
                if exists|i: int| 0 <= i < self@.len() && (#[trigger] self@[i].signature) == sig@ {
                    let i = choose|i: int|
                        0 <= i < self@.len() && (#[trigger] self@[i].signature) == sig@;
                    lemma_items_map_index(self@, i);
                }
            }
        }
        r
    }

    /// All pending transactions, in admission order.
    pub fn get_all(&self) -> (r: Vec<Transaction>)
        ensures
            r@.len() == self@.len(),
            forall|i: int| 0 <= i < self@.len() ==> (#[trigger] r@[i]@) == self@[i],
    {
        let mut r: Vec<Transaction> = Vec::new();
        let mut i: usize = 0;
        while i < self.items.len()
            invariant
                i <= self.items@.len(),
                r@.len() == i,
                forall|j: int| 0 <= j < i ==> (#[trigger] r@[j]@) == self@[j],
            decreases self.items@.len() - i,
        {
            r.push(self.items[i].duplicate());
            i = i + 1;
        }
        r
    }

    /// Commits the trie and returns the root digest over the pending set.
    pub fn root(&mut self) -> (r: Vec<u8>)
        requires
            old(self).wf(),
        ensures
            final(self).wf(),
            final(self)@ == old(self)@,
            r@ == root_of(items_map(old(self)@)),
            r@.len() == 32,
    {
        trie_root(&mut self.trie)
    }

    /// The serialized body of the pending set: the canonical encoding of the
    /// transaction list.
    pub fn body_bytes(&self) -> (r: Vec<u8>)
        ensures
            r@ == body_enc(self@),
    {
        let mut out: Vec<u8> = Vec::new();
        enc_u64(&mut out, self.items.len() as u64);
        let ghost base = out@;
        let mut i: usize = 0;
        while i < self.items.len()
            invariant
                i <= self.items@.len(),
                out@ == base + items_enc(self@.take(i as int), tx_enc_fn()),
            decreases self.items@.len() - i,
        {
            encode_transaction(&self.items[i], &mut out);
            proof {
                lemma_items_enc_push(self@.take(i as int), self@[i as int], tx_enc_fn());
                assert(self@.take(i + 1) =~= self@.take(i as int).push(self@[i as int]));
                assert(out@ =~= base + items_enc(self@.take(i + 1), tx_enc_fn()));
            }
            i = i + 1;
        }
        proof {
            assert(self@.take(self@.len() as int) =~= self@);
            assert(out@ =~= body_enc(self@));
        }
        out
    }
}

/// The result of admitting `t` to a pending list: a replacement when the
/// signature is already present, an append otherwise.
pub open spec fn mempool_upsert(
    s: Seq<TransactionView>,
    t: TransactionView,
) -> Seq<TransactionView> {
    if exists|i: int| 0 <= i < s.len() && (#[trigger] s[i].signature) == t.signature {
        let i = choose|i: int| 0 <= i < s.len() && (#[trigger] s[i].signature) == t.signature;
        s.update(i, t)
    } else {
        s.push(t)
    }
}

/// A key in the induced map is some listed transaction's signature.
pub proof fn lemma_items_map_absent_converse(s: Seq<TransactionView>, k: Seq<u8>)
    requires
        items_map(s).contains_key(k),
    ensures
        exists|i: int| 0 <= i < s.len() && (#[trigger] s[i].signature) == k,
{
    if forall|i: int| 0 <= i < s.len() ==> (#[trigger] s[i].signature) != k {
        lemma_items_map_absent(s, k);
    }
}

/// Replacing the transaction that holds a signature updates the induced map
/// at that signature alone.
pub proof fn lemma_items_map_update(s: Seq<TransactionView>, i: int, t: TransactionView)
    requires
        distinct_sigs(s),
        0 <= i < s.len(),
        s[i].signature == t.signature,
    ensures
        items_map(s.update(i, t)) == items_map(s).insert(t.signature, tx_enc(t)),
    decreases s.len(),
{
    let s2 = s.update(i, t);
    if i == s.len() - 1 {
        assert(s2.drop_last() =~= s.drop_last());
        assert(s2.last() == t);
        assert(items_map(s2) =~= items_map(s).insert(t.signature, tx_enc(t)));
    } else {
        assert(distinct_sigs(s.drop_last())) by {
            assert forall|a: int, b: int|
                0 <= a < b < s.drop_last().len() implies (#[trigger] s.drop_last()[a].signature)
                != (#[trigger] s.drop_last()[b].signature) by {
                assert(s.drop_last()[a] == s[a] && s.drop_last()[b] == s[b]);
            }
        }
        assert(s.drop_last()[i] == s[i]);
        lemma_items_map_update(s.drop_last(), i, t);
        assert(s2.drop_last() =~= s.drop_last().update(i, t));
        assert(s2.last() == s.last());
        assert(s.last().signature != t.signature);
        assert(items_map(s2) == items_map(s.drop_last().update(i, t)).insert(
            s.last().signature,
            tx_enc(s.last()),
        ));
        assert(items_map(s2) =~= items_map(s).insert(t.signature, tx_enc(t)));
    }
}

// ---------------------------------------------------------------------------
// The serialized body
// ---------------------------------------------------------------------------

/// Encoder of one transaction.
pub open spec fn tx_enc_fn() -> spec_fn(TransactionView) -> Seq<u8> {
    |t: TransactionView| tx_enc(t)
}

/// Parser of one transaction.
pub open spec fn tx_dec_fn() -> spec_fn(Seq<u8>, int) -> Option<(TransactionView, int)> {
    |ss: Seq<u8>, pp: int| dec_tx_at(ss, pp)
}

/// Canonical encoding of a pending set's body: count, then transactions.
pub open spec fn body_enc(s: Seq<TransactionView>) -> Seq<u8> {
    u64_le(s.len() as u64) + items_enc(s, tx_enc_fn())
}

/// Parse of a body at `pos`.
pub open spec fn dec_body_at(s: Seq<u8>, pos: int) -> Option<(Seq<TransactionView>, int)> {
    match dec_u64_at(s, pos) {
        Some((n, p1)) => dec_items_at(s, p1, n as nat, tx_dec_fn()),
        None => None,
    }
}

/// If the bytes at `pos` are `body_enc(s)` and every listed transaction is
/// well-formed, the body parse yields `s`.
pub proof fn lemma_dec_body_of_enc(s: Seq<u8>, pos: int, l: Seq<TransactionView>)
    requires
        0 <= pos,
        l.len() <= u64::MAX,
        forall|i: int| 0 <= i < l.len() ==> tx_wf(#[trigger] l[i]),
        pos + body_enc(l).len() <= s.len(),
        s.subrange(pos, pos + body_enc(l).len() as int) == body_enc(l),
    ensures
        dec_body_at(s, pos) == Some((l, pos + body_enc(l).len())),
{
    let e = body_enc(l);
    let p1 = pos + 8;
    assert(s.subrange(pos, p1) =~= e.subrange(0, 8));
    assert(e.subrange(0, 8) =~= u64_le(l.len() as u64));
    lemma_dec_u64_of_enc(s, pos, l.len() as u64);
    assert(s.subrange(p1, p1 + items_enc(l, tx_enc_fn()).len() as int) =~= e.subrange(
        8,
        e.len() as int,
    ));
    assert(e.subrange(8, e.len() as int) =~= items_enc(l, tx_enc_fn()));
    assert forall|j: int, p: int|
        0 <= j < l.len() && 0 <= p && p + tx_enc_fn()(#[trigger] l[j]).len() <= s.len()
            && s.subrange(p, #[trigger] (p + tx_enc_fn()(l[j]).len() as int)) == tx_enc_fn()(
            l[j],
        ) implies tx_dec_fn()(s, p) == Some((l[j], p + tx_enc_fn()(l[j]).len())) by {
        lemma_dec_tx_of_enc(s, p, l[j]);
    }
    lemma_dec_items_of_enc(s, p1, l, tx_enc_fn(), tx_dec_fn());
}

/// Reads a body at `pos`: the transaction list of a historical block.
pub fn decode_body(buf: &[u8], pos: usize) -> (r: Option<(Vec<Transaction>, usize)>)
    ensures
        match r {
            Some((txs, p)) => dec_body_at(buf@, pos as int) == Some(
                (Seq::new(txs@.len(), |i: int| txs@[i]@), p as int),
            ),
            None => dec_body_at(buf@, pos as int) is None,
        },
{
    let (n, p1) = match dec_u64(buf, pos) {
        Some(x) => x,
        None => {
            return None;
        },
    };
    let mut txs: Vec<Transaction> = Vec::new();
    let ghost l_done: Seq<TransactionView> = Seq::empty();
    let mut cur: usize = p1;
    let mut i: u64 = 0;
    while i < n
        invariant
            i <= n,
            txs@.len() == i,
            l_done.len() == i,
            dec_u64_at(buf@, pos as int) == Some((n, p1 as int)),
            forall|j: int| 0 <= j < i ==> (#[trigger] txs@[j]@) == l_done[j],
            dec_items_at(buf@, p1 as int, n as nat, tx_dec_fn()) == (match dec_items_at(
                buf@,
                cur as int,
                (n - i) as nat,
                tx_dec_fn(),
            ) {
                Some((l, q)) => Some((l_done + l, q)),
                None => None,
            }),
        decreases n - i,
    {
        let (tx, p) = match decode_transaction(buf, cur) {
            Some(x) => x,
            None => {
                proof {
                    assert(dec_items_at(buf@, cur as int, (n - i) as nat, tx_dec_fn()) is None);
                }
                return None;
            },
        };
        proof {
            let rest = dec_items_at(buf@, p as int, (n - i - 1) as nat, tx_dec_fn());
            if rest is Some {
                let (l, q) = rest->Some_0;
                assert(l_done + (seq![tx@] + l) =~= (l_done + seq![tx@]) + l);
                assert(l_done.push(tx@) =~= l_done + seq![tx@]);
            }
        }
        txs.push(tx);
        proof {
            l_done = l_done.push(txs@[i as int]@);
        }
        cur = p;
        i = i + 1;
    }
    proof {
        assert(dec_items_at(buf@, cur as int, 0, tx_dec_fn()) == Some(
            (Seq::<TransactionView>::empty(), cur as int),
        ));
        assert(l_done + Seq::<TransactionView>::empty() =~= l_done);
        assert(Seq::new(txs@.len(), |j: int| txs@[j]@) =~= l_done);
    }
    Some((txs, cur))
}

// ---------------------------------------------------------------------------
// Reconstructing a historical view
// ---------------------------------------------------------------------------

/// Whether `body` is a complete, well-formed serialized transaction set
/// whose Merkle root digest is `root`.
pub open spec fn loadable(body: Seq<u8>, root: Seq<u8>) -> bool {
    match dec_body_at(body, 0) {
        Some((l, n)) => {
            &&& n == body.len()
            &&& forall|i: int| 0 <= i < l.len() ==> tx_wf(#[trigger] l[i])
            &&& distinct_sigs(l)
            &&& root_of(items_map(l)) == root
        },
        None => false,
    }
}

/// A fresh signature makes admission an append.
pub proof fn lemma_upsert_fresh(s: Seq<TransactionView>, t: TransactionView)
    requires
        forall|i: int| 0 <= i < s.len() ==> (#[trigger] s[i].signature) != t.signature,
    ensures
        mempool_upsert(s, t) == s.push(t),
{
    if exists|i: int| 0 <= i < s.len() && (#[trigger] s[i].signature) == t.signature {
        let i = choose|i: int| 0 <= i < s.len() && (#[trigger] s[i].signature) == t.signature;
        assert(s[i].signature != t.signature);
    }
}

/// Law: the serialized body and root digest of a pending set reconstruct
/// exactly that set.  Together with `Mempool::load_from` and `Mempool::get`,
/// every transaction included when a block was assembled is found again in
/// the view loaded from the block's body and header.
pub proof fn lemma_snapshot_round_trip(s: Seq<TransactionView>)
    requires
        s.len() <= u64::MAX,
        forall|i: int| 0 <= i < s.len() ==> tx_wf(#[trigger] s[i]),
        distinct_sigs(s),
    ensures
        dec_body_at(body_enc(s), 0) == Some((s, body_enc(s).len() as int)),
        loadable(body_enc(s), root_of(items_map(s))),
{
    let e = body_enc(s);
    assert(e.subrange(0, e.len() as int) =~= e);
    lemma_dec_body_of_enc(e, 0, s);
}

impl Mempool {
    /// Reconstructs a read-only view of a historical block's transaction set
    /// from its serialized `body`, and checks it against the block's `root`
    /// digest.  Succeeds exactly on complete, well-formed bodies with unique
    /// signatures whose recomputed root matches.
    pub fn load_from(body: &[u8], root: &[u8]) -> (r: Result<Mempool, NodeError>)
        ensures
            match r {
                Ok(m) => {
                    &&& m.wf()
                    &&& loadable(body@, root@)
                    &&& dec_body_at(body@, 0) == Some((m@, body@.len() as int))
                    &&& root_of(items_map(m@)) == root@
                },
                Err(e) => e == NodeError::MalformedPayload && !loadable(body@, root@),
            },
    {
        let (txs, consumed) = match decode_body(body, 0) {
            Some(x) => x,
            None => {
                return Err(NodeError::MalformedPayload);
            },
        };
        if consumed != body.len() {
            return Err(NodeError::MalformedPayload);
        }
        let ghost l = Seq::new(txs@.len(), |i: int| txs@[i]@);
        let mut m = Mempool::new();
        let mut i: usize = 0;
        while i < txs.len()
            invariant
                i <= txs@.len(),
                l == Seq::new(txs@.len(), |k: int| txs@[k]@),
                dec_body_at(body@, 0) == Some((l, body@.len() as int)),
                m.wf(),
                m@ == l.take(i as int),
                distinct_sigs(l.take(i as int)),
            decreases txs@.len() - i,
        {
            let tx = &txs[i];
            if !crate::transactions::tx_check_wf(tx) {
                proof {
                    assert(l[i as int] == tx@);
                    assert(!loadable(body@, root@));
                }
                return Err(NodeError::MalformedPayload);
            }
            if m.contains(tx.signature.as_slice()) {
                proof {
                    let j = choose|j: int|
                        0 <= j < m@.len() && (#[trigger] m@[j].signature) == tx@.signature;
                    assert(l.take(i as int)[j] == l[j]);
                    assert(l[j].signature == l[i as int].signature);
                    assert(!distinct_sigs(l));
                    assert(!loadable(body@, root@));
                }
                return Err(NodeError::MalformedPayload);
            }
            let ghost pre = m@;
            m.insert(tx.duplicate());
            proof {
                assert forall|j: int| 0 <= j < pre.len() implies (#[trigger] pre[j].signature)
                    != tx@.signature by {
                    assert(pre[j] == l.take(i as int)[j]);
                }
                lemma_upsert_fresh(pre, tx@);
                assert(m@ =~= l.take(i + 1));
                assert(distinct_sigs(l.take(i + 1))) by {
                    assert forall|a: int, b: int|
                        0 <= a < b < i + 1 implies (#[trigger] l.take(i + 1)[a].signature)
                        != (#[trigger] l.take(i + 1)[b].signature) by {
                        assert(l.take(i + 1)[a] == l[a] && l.take(i + 1)[b] == l[b]);
                        if b < i {
                            assert(l.take(i as int)[a] == l[a] && l.take(i as int)[b] == l[b]);
                        } else {
                            assert(pre[a] == l.take(i as int)[a]);
                        }
                    }
                }
            }
            i = i + 1;
        }
        proof {
            assert(l.take(l.len() as int) =~= l);
        }
        let computed = m.root();
        if !bytes_eq(computed.as_slice(), root) {
            return Err(NodeError::MalformedPayload);
        }
        Ok(m)
    }
}

/// Structural facts about a pending set: well-formed transactions with
/// unique signatures.
pub open spec fn items_wf(s: Seq<TransactionView>) -> bool {
    &&& forall|i: int| 0 <= i < s.len() ==> tx_wf(#[trigger] s[i])
    &&& distinct_sigs(s)
}

/// A well-formed mempool's transaction list is itself well-formed.
pub proof fn lemma_mempool_items_wf(m: &Mempool)
    requires
        m.wf(),
    ensures
        items_wf(m@),
{
}

} // verus!
