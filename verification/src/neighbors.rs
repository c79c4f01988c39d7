//! The peer registry: a map from peer address to known public key and
//! validator flag, persisted as a single store value under the `neighbors`
//! key.  Every mutation rewrites the whole map.

use vstd::prelude::*;
use crate::codec::{
    enc_bytes_spec,
    u64_le,
    dec_bytes_at,
    dec_u64_at,
    enc_bytes,
    enc_u64,
    dec_bytes,
    dec_u64,
    copy_bytes,
    bytes_eq,
    items_enc,
    dec_items_at,
    lemma_dec_items_of_enc,
    lemma_items_enc_push,
    lemma_dec_u64_of_enc,
    lemma_dec_bytes_of_enc,
};
use crate::errors::NodeError;
use crate::keyvalue;
use crate::keyvalue::db_view;
use crate::storekeys::{key_neighbors, key_neighbors_bytes};

verus! {

// ---------------------------------------------------------------------------
// Data model
// ---------------------------------------------------------------------------

/// A registered peer: its public key and whether it is trusted as a
/// validator.
pub struct Node {
    pub pk: Vec<u8>,
    pub is_validator: bool,
}

/// Mathematical model of a registered peer.
pub struct NodeView {
    pub pk: Seq<u8>,
    pub is_validator: bool,
}

impl View for Node {
    type V = NodeView;

    open spec fn view(&self) -> NodeView {
        NodeView { pk: self.pk@, is_validator: self.is_validator }
    }
}

/// The registry: peer entries keyed by peer address bytes.
pub struct Neighbors {
    pub neighbors: Vec<(Vec<u8>, Node)>,
}

impl View for Neighbors {
    type V = Seq<(Seq<u8>, NodeView)>;

    open spec fn view(&self) -> Seq<(Seq<u8>, NodeView)> {
        Seq::new(self.neighbors@.len(), |i: int| (self.neighbors@[i].0@, self.neighbors@[i].1@))
    }
}

// ---------------------------------------------------------------------------
// Association-list primitives
// ---------------------------------------------------------------------------

/// Index of the first entry keyed `k`, or -1 when there is none.
pub open spec fn nb_find(s: Seq<(Seq<u8>, NodeView)>, k: Seq<u8>) -> int
    decreases s.len(),
{
    if s.len() == 0 {
        -1
    } else if s[0].0 == k {
        0
    } else {
        let r = nb_find(s.drop_first(), k);
        if r < 0 {
            -1
        } else {
            r + 1
        }
    }
}

/// The entry keyed `k`, when there is one.
pub open spec fn nb_lookup(s: Seq<(Seq<u8>, NodeView)>, k: Seq<u8>) -> Option<NodeView> {
    let i = nb_find(s, k);
    if i >= 0 {
        Some(s[i].1)
    } else {
        None
    }
}

/// Replaces the first entry keyed `k`, or appends a new one.
pub open spec fn nb_upsert(s: Seq<(Seq<u8>, NodeView)>, k: Seq<u8>, n: NodeView) -> Seq<
    (Seq<u8>, NodeView),
> {
    let i = nb_find(s, k);
    if i >= 0 {
        s.update(i, (k, n))
    } else {
        s.push((k, n))
    }
}

/// What `nb_find` returns.
pub proof fn lemma_nb_find_props(s: Seq<(Seq<u8>, NodeView)>, k: Seq<u8>)
    ensures
        nb_find(s, k) == -1 || 0 <= nb_find(s, k) < s.len(),
        nb_find(s, k) == -1 ==> forall|j: int| 0 <= j < s.len() ==> s[j].0 != k,
        nb_find(s, k) >= 0 ==> s[nb_find(s, k)].0 == k,
        nb_find(s, k) >= 0 ==> forall|j: int| 0 <= j < nb_find(s, k) ==> s[j].0 != k,
    decreases s.len(),
{
    if s.len() > 0 && s[0].0 != k {
        lemma_nb_find_props(s.drop_first(), k);
        assert forall|j: int| 1 <= j < s.len() implies s.drop_first()[j - 1] == s[j] by {}
    }
}

/// A position that holds `k` after positions that do not is what `nb_find`
/// returns.
pub proof fn lemma_nb_find_char(s: Seq<(Seq<u8>, NodeView)>, k: Seq<u8>, i: int)
    requires
        0 <= i < s.len(),
        s[i].0 == k,
        forall|j: int| 0 <= j < i ==> s[j].0 != k,
    ensures
        nb_find(s, k) == i,
    decreases s.len(),
{
    if i > 0 {
        assert(s[0].0 != k);
        assert forall|j: int| 0 <= j < i - 1 implies s.drop_first()[j].0 != k by {
            assert(s.drop_first()[j] == s[j + 1]);
        }
        assert(s.drop_first()[i - 1] == s[i]);
        lemma_nb_find_char(s.drop_first(), k, i - 1);
    }
}

/// Looking up the address just registered returns the registered peer.
pub proof fn lemma_nb_lookup_upsert_same(s: Seq<(Seq<u8>, NodeView)>, k: Seq<u8>, n: NodeView)
    ensures
        nb_lookup(nb_upsert(s, k, n), k) == Some(n),
{
    lemma_nb_find_props(s, k);
    let i = nb_find(s, k);
    if i >= 0 {
        let s2 = s.update(i, (k, n));
        assert forall|j: int| 0 <= j < i implies s2[j].0 != k by {
            assert(s2[j] == s[j]);
        }
        lemma_nb_find_char(s2, k, i);
    } else {
        let s2 = s.push((k, n));
        assert forall|j: int| 0 <= j < s.len() implies s2[j].0 != k by {
            assert(s2[j] == s[j]);
        }
        assert(s2[s.len() as int].0 == k);
        lemma_nb_find_char(s2, k, s.len() as int);
    }
}

// ---------------------------------------------------------------------------
// Canonical encoding
// ---------------------------------------------------------------------------

/// Canonical encoding of one registry entry.
pub open spec fn nb_entry_enc(e: (Seq<u8>, NodeView)) -> Seq<u8> {
    enc_bytes_spec(e.0) + enc_bytes_spec(e.1.pk) + seq![
        if e.1.is_validator {
            1u8
        } else {
            0u8
        },
    ]
}

/// Encoder of one registry entry.
pub open spec fn nb_entry_enc_fn() -> spec_fn((Seq<u8>, NodeView)) -> Seq<u8> {
    |e: (Seq<u8>, NodeView)| nb_entry_enc(e)
}

/// Canonical encoding of the whole registry.
#[verifier::opaque]
pub open spec fn nb_enc(s: Seq<(Seq<u8>, NodeView)>) -> Seq<u8> {
    u64_le(s.len() as u64) + items_enc(s, nb_entry_enc_fn())
}

/// Parse of one registry entry at `pos`.
pub open spec fn dec_nb_entry_at(s: Seq<u8>, pos: int) -> Option<((Seq<u8>, NodeView), int)> {
    match dec_bytes_at(s, pos) {
        Some((k, p1)) => match dec_bytes_at(s, p1) {
            Some((pk, p2)) => if p2 < s.len() && (s[p2] == 0 || s[p2] == 1) {
                Some(((k, NodeView { pk: pk, is_validator: s[p2] == 1 }), p2 + 1))
            } else {
                None
            },
            None => None,
        },
        None => None,
    }
}

/// Parser of one registry entry.
pub open spec fn nb_entry_dec_fn() -> spec_fn(Seq<u8>, int) -> Option<((Seq<u8>, NodeView), int)> {
    |ss: Seq<u8>, pp: int| dec_nb_entry_at(ss, pp)
}

/// Parse of the whole registry at `pos`.
pub open spec fn dec_nb_at(s: Seq<u8>, pos: int) -> Option<(Seq<(Seq<u8>, NodeView)>, int)> {
    match dec_u64_at(s, pos) {
        Some((n, p1)) => dec_items_at(s, p1, n as nat, nb_entry_dec_fn()),
        None => None,
    }
}

/// The registry a store holds: `Some` of the decoded map, with a missing
/// entry reading as the empty registry; `None` when the stored bytes do not
/// decode completely.
pub open spec fn neighbors_of_store(store: Map<Seq<u8>, Seq<u8>>) -> Option<
    Seq<(Seq<u8>, NodeView)>,
> {
    if !store.contains_key(key_neighbors()) {
        Some(Seq::empty())
    } else {
        match dec_nb_at(store[key_neighbors()], 0) {
            Some((l, n)) => if n == store[key_neighbors()].len() {
                Some(l)
            } else {
                None
            },
            None => None,
        }
    }
}

/// Builds the canonical encoding of the registry.
pub fn encode_neighbors(nb: &Neighbors) -> (r: Vec<u8>)
    ensures
        r@ == nb_enc(nb@),
{
    let mut out: Vec<u8> = Vec::new();
    enc_u64(&mut out, nb.neighbors.len() as u64);
    let ghost base = out@;
    let mut i: usize = 0;
    while i < nb.neighbors.len()
        invariant
            i <= nb.neighbors@.len(),
            out@ == base + items_enc(nb@.take(i as int), nb_entry_enc_fn()),
        decreases nb.neighbors@.len() - i,
    {
        enc_bytes(&mut out, nb.neighbors[i].0.as_slice());
        enc_bytes(&mut out, nb.neighbors[i].1.pk.as_slice());
        if nb.neighbors[i].1.is_validator {
            out.push(1u8);
        } else {
            out.push(0u8);
        }
        proof {
            lemma_items_enc_push(nb@.take(i as int), nb@[i as int], nb_entry_enc_fn());
            assert(nb@.take(i + 1) =~= nb@.take(i as int).push(nb@[i as int]));
            assert(out@ =~= base + items_enc(nb@.take(i + 1), nb_entry_enc_fn()));
        }
        i = i + 1;
    }
    proof {
        reveal(nb_enc);
        assert(nb@.take(nb@.len() as int) =~= nb@);
        assert(out@ =~= nb_enc(nb@));
    }
    out
}

/// Reads a registry at `pos`.
pub fn decode_neighbors(buf: &[u8], pos: usize) -> (r: Option<(Neighbors, usize)>)
    ensures
        match r {
            Some((nb, p)) => dec_nb_at(buf@, pos as int) == Some((nb@, p as int)),
            None => dec_nb_at(buf@, pos as int) is None,
        },
{
    let (n, p1) = match dec_u64(buf, pos) {
        Some(x) => x,
        None => {
            return None;
        },
    };
    let mut entries: Vec<(Vec<u8>, Node)> = Vec::new();
    let ghost l_done: Seq<(Seq<u8>, NodeView)> = Seq::empty();
    let mut cur: usize = p1;
    let mut i: u64 = 0;
    while i < n
        invariant
            i <= n,
            entries@.len() == i,
            l_done.len() == i,
            dec_u64_at(buf@, pos as int) == Some((n, p1 as int)),
            forall|j: int|
                0 <= j < i ==> (#[trigger] entries@[j].0@) == l_done[j].0 && entries@[j].1@
                    == l_done[j].1,
            dec_items_at(buf@, p1 as int, n as nat, nb_entry_dec_fn()) == (match dec_items_at(
                buf@,
                cur as int,
                (n - i) as nat,
                nb_entry_dec_fn(),
            ) {
                Some((l, q)) => Some((l_done + l, q)),
                None => None,
            }),
        decreases n - i,
    {
        let (k, pk_pos) = match dec_bytes(buf, cur) {
            Some(x) => x,
            None => {
                proof {
                    assert(dec_items_at(buf@, cur as int, (n - i) as nat, nb_entry_dec_fn())
                        is None);
                }
                return None;
            },
        };
        let (pk, flag_pos) = match dec_bytes(buf, pk_pos) {
            Some(x) => x,
            None => {
                proof {
                    assert(dec_items_at(buf@, cur as int, (n - i) as nat, nb_entry_dec_fn())
                        is None);
                }
                return None;
            },
        };
        if flag_pos >= buf.len() {
            proof {
                assert(dec_items_at(buf@, cur as int, (n - i) as nat, nb_entry_dec_fn()) is None);
            }
            return None;
        }
        let flag = buf[flag_pos];
        if flag != 0 && flag != 1 {
            proof {
                assert(dec_items_at(buf@, cur as int, (n - i) as nat, nb_entry_dec_fn()) is None);
            }
            return None;
        }
        let node = Node { pk, is_validator: flag == 1 };
        let p = flag_pos + 1;
        proof {
            let rest = dec_items_at(buf@, p as int, (n - i - 1) as nat, nb_entry_dec_fn());
            if rest is Some {
                let (l, q) = rest->Some_0;
                assert(l_done + (seq![(k@, node@)] + l) =~= (l_done + seq![(k@, node@)]) + l);
                assert(l_done.push((k@, node@)) =~= l_done + seq![(k@, node@)]);
            }
        }
        let ghost pre_entries = entries@;
        entries.push((k, node));
        proof {
            let pre_done = l_done;
            l_done = l_done.push((entries@[i as int].0@, entries@[i as int].1@));
            assert forall|j: int|
                0 <= j < i + 1 implies (#[trigger] entries@[j].0@) == l_done[j].0
                && entries@[j].1@ == l_done[j].1 by {
                if j < i {
                    assert(entries@[j] == pre_entries[j]);
                    assert(l_done[j] == pre_done[j]);
                }
            }
        }
        cur = p;
        i = i + 1;
    }
    proof {
        assert(dec_items_at(buf@, cur as int, 0, nb_entry_dec_fn()) == Some(
            (Seq::<(Seq<u8>, NodeView)>::empty(), cur as int),
        ));
        assert(l_done + Seq::<(Seq<u8>, NodeView)>::empty() =~= l_done);
    }
    let nb = Neighbors { neighbors: entries };
    proof {
        assert forall|j: int| 0 <= j < nb@.len() implies nb@[j] == l_done[j] by {
            assert(entries@[j].0@ == l_done[j].0 && entries@[j].1@ == l_done[j].1);
        }
        assert(nb@ =~= l_done);
    }
    Some((nb, cur))
}

/// If the bytes at `pos` are `nb_enc(s)` and every entry's pieces fit their
/// length prefixes, the registry parse yields `s`.
pub proof fn lemma_dec_nb_of_enc(s: Seq<u8>, pos: int, l: Seq<(Seq<u8>, NodeView)>)
    requires
        0 <= pos,
        l.len() <= u64::MAX,
        forall|i: int| 0 <= i < l.len() ==> (#[trigger] l[i].0.len()) + 9 <= u64::MAX,
        forall|i: int| 0 <= i < l.len() ==> (#[trigger] l[i].1.pk.len()) + 9 <= u64::MAX,
        pos + nb_enc(l).len() <= s.len(),
        s.subrange(pos, pos + nb_enc(l).len() as int) == nb_enc(l),
    ensures
        dec_nb_at(s, pos) == Some((l, pos + nb_enc(l).len())),
{
    reveal(nb_enc);
    let e = nb_enc(l);
    let p1 = pos + 8;
    assert(s.subrange(pos, p1) =~= e.subrange(0, 8));
    assert(e.subrange(0, 8) =~= u64_le(l.len() as u64));
    lemma_dec_u64_of_enc(s, pos, l.len() as u64);
    assert(s.subrange(p1, p1 + items_enc(l, nb_entry_enc_fn()).len() as int) =~= e.subrange(
        8,
        e.len() as int,
    ));
    assert(e.subrange(8, e.len() as int) =~= items_enc(l, nb_entry_enc_fn()));
    assert forall|j: int, p: int|
        0 <= j < l.len() && 0 <= p && p + nb_entry_enc_fn()(#[trigger] l[j]).len() <= s.len()
            && s.subrange(p, #[trigger] (p + nb_entry_enc_fn()(l[j]).len() as int))
            == nb_entry_enc_fn()(l[j]) implies nb_entry_dec_fn()(s, p) == Some(
        (l[j], p + nb_entry_enc_fn()(l[j]).len()),
    ) by {
        lemma_dec_nb_entry_of_enc(s, p, l[j]);
    }
    lemma_dec_items_of_enc(s, p1, l, nb_entry_enc_fn(), nb_entry_dec_fn());
}

/// If the bytes at `pos` are `nb_entry_enc(en)`, the entry parse yields
/// `en`.
proof fn lemma_dec_nb_entry_of_enc(s: Seq<u8>, pos: int, en: (Seq<u8>, NodeView))
    requires
        0 <= pos,
        en.0.len() + 9 <= u64::MAX,
        en.1.pk.len() + 9 <= u64::MAX,
        pos + nb_entry_enc(en).len() <= s.len(),
        s.subrange(pos, pos + nb_entry_enc(en).len() as int) == nb_entry_enc(en),
    ensures
        dec_nb_entry_at(s, pos) == Some((en, pos + nb_entry_enc(en).len())),
{
    let e = nb_entry_enc(en);
    let p1 = pos + 8 + en.0.len() as int;
    let p2 = p1 + 8 + en.1.pk.len() as int;
    assert(s.subrange(pos, p1) =~= e.subrange(0, p1 - pos));
    assert(e.subrange(0, p1 - pos) =~= enc_bytes_spec(en.0));
    lemma_dec_bytes_of_enc(s, pos, en.0);
    assert(s.subrange(p1, p2) =~= e.subrange(p1 - pos, p2 - pos));
    assert(e.subrange(p1 - pos, p2 - pos) =~= enc_bytes_spec(en.1.pk));
    lemma_dec_bytes_of_enc(s, p1, en.1.pk);
    assert(s[p2] == e[p2 - pos]);
}

// ---------------------------------------------------------------------------
// Registry operations on the store
// ---------------------------------------------------------------------------

impl Neighbors {
    /// Writes an empty registry into the store.
    pub fn new(db: &mut sled::Db) -> (r: Result<(), NodeError>)
        ensures
            match r {
                Ok(()) => db_view(*final(db)) == db_view(*old(db)).insert(
                    key_neighbors(),
                    nb_enc(Seq::empty()),
                ) && neighbors_of_store(db_view(*final(db))) == Some(
                    Seq::<(Seq<u8>, NodeView)>::empty(),
                ),
                Err(e) => e == NodeError::StorageFailure,
            },
    {
        let empty = Neighbors { neighbors: Vec::new() };
        proof {
            assert(empty@ =~= Seq::<(Seq<u8>, NodeView)>::empty());
        }
        let bytes = encode_neighbors(&empty);
        let key = key_neighbors_bytes();
        let r = keyvalue::insert(db, key.as_slice(), bytes.as_slice());
        proof {
            if r is Ok {
                let st = db_view(*db);
                assert(st[key_neighbors()] == nb_enc(empty@));
                assert(nb_enc(empty@).subrange(0, nb_enc(empty@).len() as int) =~= nb_enc(
                    empty@,
                ));
                lemma_dec_nb_of_enc(nb_enc(empty@), 0, empty@);
            }
        }
        r
    }

    /// Reads the registry from the store; a missing entry is created empty.
    pub fn restore(db: &mut sled::Db) -> (r: Result<Neighbors, NodeError>)
        ensures
            match r {
                Ok(nb) => neighbors_of_store(db_view(*final(db))) == Some(nb@)
                    && neighbors_of_store(db_view(*old(db))) == Some(nb@),
                Err(e) => e == NodeError::StorageFailure || (e == NodeError::MalformedPayload
                    && neighbors_of_store(db_view(*old(db))) is None && db_view(*final(db))
                    == db_view(*old(db))),
            },
    {
        let key = key_neighbors_bytes();
        match keyvalue::get(db, key.as_slice()) {
            Ok(Some(bytes)) => {
                match decode_neighbors(bytes.as_slice(), 0) {
                    Some((nb, consumed)) => {
                        if consumed == bytes.len() {
                            Ok(nb)
                        } else {
                            Err(NodeError::MalformedPayload)
                        }
                    },
                    None => Err(NodeError::MalformedPayload),
                }
            },
            Ok(None) => {
                match Neighbors::new(db) {
                    Ok(()) => {
                        let nb = Neighbors { neighbors: Vec::new() };
                        proof {
                            assert(nb@ =~= Seq::<(Seq<u8>, NodeView)>::empty());
                        }
                        Ok(nb)
                    },
                    Err(e) => Err(e),
                }
            },
            Err(e) => Err(e),
        }
    }

    /// Registers (or re-registers) the peer at address `src`, rewriting the
    /// whole registry in the store.
    /// Replaces or appends the entry for `src` in the in-memory registry.
    fn upsert_entry(nb: &mut Neighbors, src: Vec<u8>, node: Node)
        ensures
            final(nb)@ == nb_upsert(old(nb)@, src@, node@),
    {
        let ghost pre = nb@;
        let mut i: usize = 0;
        let mut found = false;
        while i < nb.neighbors.len() && !found
            invariant
                i <= nb.neighbors@.len(),
                nb@ == pre,
                found ==> i < nb.neighbors@.len() && nb@[i as int].0 == src@,
                forall|j: int| 0 <= j < i ==> (#[trigger] nb@[j].0) != src@,
            decreases nb.neighbors@.len() - i, (if found { 0int } else { 1int }),
        {
            if bytes_eq(nb.neighbors[i].0.as_slice(), src.as_slice()) {
                found = true;
            } else {
                i = i + 1;
            }
        }
        let ghost nview = node@;
        if found {
            proof {
                lemma_nb_find_char(pre, src@, i as int);
            }
            nb.neighbors.set(i, (src, node));
            proof {
                assert(nb@ =~= nb_upsert(pre, src@, nview));
            }
        } else {
            proof {
                lemma_nb_find_absent_helper(pre, src@);
            }
            nb.neighbors.push((src, node));
            proof {
                assert(nb@ =~= nb_upsert(pre, src@, nview));
            }
        }
    }

    /// Checks that every entry fits its length prefixes.
    fn entries_bounded(nb: &Neighbors) -> (r: bool)
        ensures
            r ==> forall|j: int| 0 <= j < nb@.len() ==> (#[trigger] nb@[j].0.len()) + 9
                <= u64::MAX,
            r ==> forall|j: int| 0 <= j < nb@.len() ==> (#[trigger] nb@[j].1.pk.len()) + 9
                <= u64::MAX,
    {
        let mut k: usize = 0;
        while k < nb.neighbors.len()
            invariant
                k <= nb.neighbors@.len(),
                forall|j: int| 0 <= j < k ==> (#[trigger] nb@[j].0.len()) + 9 <= u64::MAX,
                forall|j: int| 0 <= j < k ==> (#[trigger] nb@[j].1.pk.len()) + 9 <= u64::MAX,
            decreases nb.neighbors@.len() - k,
        {
            if (nb.neighbors[k].0.len() as u64) > u64::MAX - 9 || (nb.neighbors[k].1.pk.len()
                as u64) > u64::MAX - 9 {
                return false;
            }
            proof {
                assert(nb@[k as int].0 == nb.neighbors@[k as int].0@);
                assert(nb@[k as int].1.pk == nb.neighbors@[k as int].1@.pk);
            }
            k = k + 1;
        }
        true
    }

    #[verifier::rlimit(60)]
    #[verifier::spinoff_prover]
    pub fn add(src: Vec<u8>, node: Node, db: &mut sled::Db) -> (r: Result<(), NodeError>)
        requires
            src@.len() + 9 <= u64::MAX,
            node.pk@.len() + 9 <= u64::MAX,
        ensures
            match r {
                Ok(()) => {
                    &&& neighbors_of_store(db_view(*old(db))) is Some
                    &&& neighbors_of_store(db_view(*final(db))) == Some(
                        nb_upsert(
                            neighbors_of_store(db_view(*old(db)))->Some_0,
                            src@,
                            node@,
                        ),
                    )
                    &&& nb_lookup(neighbors_of_store(db_view(*final(db)))->Some_0, src@) == Some(
                        node@,
                    )
                },
                Err(e) => e == NodeError::StorageFailure || (e == NodeError::MalformedPayload
                    && neighbors_of_store(db_view(*old(db))) is None),
            },
    {
        let mut nb = match Neighbors::restore(db) {
            Ok(n) => n,
            Err(e) => {
                return Err(e);
            },
        };
        let ghost pre = nb@;
        if (nb.neighbors.len() as u64) == u64::MAX {
            return Err(NodeError::StorageFailure);
        }
        let ghost nview = node@;
        Neighbors::upsert_entry(&mut nb, src, node);
        // Every entry the registry round-trips through the store must fit
        // its length prefixes; entries read back from the store do, and the
        // new one is bounded by the preconditions.
        if !Neighbors::entries_bounded(&nb) {
            return Err(NodeError::StorageFailure);
        }
        let bytes = encode_neighbors(&nb);
        let key = key_neighbors_bytes();
        if (nb.neighbors.len() as u64) == u64::MAX {
            return Err(NodeError::StorageFailure);
        }
        match keyvalue::insert(db, key.as_slice(), bytes.as_slice()) {
            Ok(()) => {
                proof {
                    let st = db_view(*db);
                    assert(st[key_neighbors()] == nb_enc(nb@));
                    assert(nb_enc(nb@).subrange(0, nb_enc(nb@).len() as int) =~= nb_enc(nb@));
                    lemma_dec_nb_of_enc(nb_enc(nb@), 0, nb@);
                    lemma_nb_lookup_upsert_same(pre, src@, nview);
                }
                Ok(())
            },
            Err(e) => Err(e),
        }
    }

    /// Looks the peer at address `src` up in the stored registry.
    pub fn get(src: &[u8], db: &mut sled::Db) -> (r: Result<Option<Node>, NodeError>)
        ensures
            match r {
                Ok(o) => neighbors_of_store(db_view(*final(db))) is Some && neighbors_of_store(
                    db_view(*final(db)),
                ) == neighbors_of_store(db_view(*old(db))) && (match o {
                    Some(node) => nb_lookup(
                        neighbors_of_store(db_view(*final(db)))->Some_0,
                        src@,
                    ) == Some(node@),
                    None => nb_lookup(neighbors_of_store(db_view(*final(db)))->Some_0, src@)
                        is None,
                }),
                Err(e) => e == NodeError::StorageFailure || (e == NodeError::MalformedPayload
                    && neighbors_of_store(db_view(*final(db))) is None && db_view(*final(db))
                    == db_view(*old(db))),
            },
    {
        let nb = match Neighbors::restore(db) {
            Ok(n) => n,
            Err(e) => {
                return Err(e);
            },
        };
        let mut i: usize = 0;
        while i < nb.neighbors.len()
            invariant
                i <= nb.neighbors@.len(),
                forall|j: int| 0 <= j < i ==> (#[trigger] nb@[j].0) != src@,
                neighbors_of_store(db_view(*db)) == Some(nb@),
                neighbors_of_store(db_view(*db)) == neighbors_of_store(db_view(*old(db))),
            decreases nb.neighbors@.len() - i,
        {
            if bytes_eq(nb.neighbors[i].0.as_slice(), src) {
                proof {
                    lemma_nb_find_char(nb@, src@, i as int);
                }
                let node = Node {
                    pk: copy_bytes(&nb.neighbors[i].1.pk),
                    is_validator: nb.neighbors[i].1.is_validator,
                };
                return Ok(Some(node));
            }
            i = i + 1;
        }
        proof {
            lemma_nb_find_absent_helper(nb@, src@);
        }
        Ok(None)
    }
}

/// A key no entry holds is not found.
pub proof fn lemma_nb_find_absent_helper(s: Seq<(Seq<u8>, NodeView)>, k: Seq<u8>)
    requires
        forall|j: int| 0 <= j < s.len() ==> s[j].0 != k,
    ensures
        nb_find(s, k) == -1,
{
    lemma_nb_find_props(s, k);
    if nb_find(s, k) >= 0 {
        assert(s[nb_find(s, k)].0 == k);
    }
}

} // verus!
