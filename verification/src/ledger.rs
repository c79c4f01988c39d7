//! The ledger: per-account entries and the deriver that replays a
//! transaction set against a prior snapshot.
//!
//! An account entry is created the first time a public key appears as a
//! sender or transfer recipient and is never deleted.  Balances wrap on
//! overflow, matching two's-complement addition.

use vstd::prelude::*;
use crate::codec::{
    enc_bytes_spec,
    i64_le,
    u64_le,
    dec_bytes_at,
    dec_i64_at,
    dec_u64_at,
    enc_bytes,
    enc_i64,
    enc_u64,
    dec_bytes,
    dec_i64,
    dec_u64,
    copy_bytes,
    bytes_eq,
    lemma_dec_bytes_of_enc,
    lemma_dec_i64_of_enc,
    lemma_dec_u64_of_enc,
};
use crate::transactions::{Transaction, TransactionView, TransactionDataView, tx_wf};
use crate::codec::{items_enc, dec_items_at, lemma_dec_items_of_enc, lemma_items_enc_push};

verus! {

// ---------------------------------------------------------------------------
// Data model
// ---------------------------------------------------------------------------

/// A linked (child) address: a 33-byte public key.
#[derive(Clone)]
pub struct AddressFormat {
    pub address: Vec<u8>,
}

/// A ledger entry: the signature of the key's latest transaction, its
/// balance, and its registered linked addresses.
#[derive(Clone)]
pub struct Address {
    pub last_transaction: Vec<u8>,
    pub balance: i64,
    pub linked_addresses: Vec<AddressFormat>,
}

/// The full ledger snapshot: entries keyed by the account's public key.
#[derive(Clone)]
pub struct AddressesState {
    pub state: Vec<(Vec<u8>, Address)>,
}

/// Mathematical model of a ledger entry.
pub struct AddressView {
    pub last_transaction: Seq<u8>,
    pub balance: i64,
    pub linked_addresses: Seq<Seq<u8>>,
}

impl View for Address {
    type V = AddressView;

    open spec fn view(&self) -> AddressView {
        AddressView {
            last_transaction: self.last_transaction@,
            balance: self.balance,
            linked_addresses: Seq::new(
                self.linked_addresses@.len(),
                |i: int| self.linked_addresses@[i].address@,
            ),
        }
    }
}

impl View for AddressesState {
    type V = Seq<(Seq<u8>, AddressView)>;

    open spec fn view(&self) -> Seq<(Seq<u8>, AddressView)> {
        Seq::new(self.state@.len(), |i: int| (self.state@[i].0@, self.state@[i].1@))
    }
}

/// Structural well-formedness of a ledger entry.
pub open spec fn addr_wf(a: AddressView) -> bool {
    &&& a.last_transaction.len() == 64
    &&& a.linked_addresses.len() <= u64::MAX
    &&& forall|i: int| 0 <= i < a.linked_addresses.len() ==> #[trigger] a.linked_addresses[i].len()
        == 33
}

/// Structural well-formedness of a whole snapshot.
pub open spec fn ledger_wf(s: Seq<(Seq<u8>, AddressView)>) -> bool {
    &&& s.len() <= u64::MAX
    &&& forall|i: int| 0 <= i < s.len() ==> #[trigger] s[i].0.len() == 33
    &&& forall|i: int| 0 <= i < s.len() ==> addr_wf(#[trigger] s[i].1)
}

// ---------------------------------------------------------------------------
// Association-list primitives
// ---------------------------------------------------------------------------

/// Index of the first entry keyed `k`, or -1 when there is none.
pub open spec fn ledger_find(s: Seq<(Seq<u8>, AddressView)>, k: Seq<u8>) -> int
    decreases s.len(),
{
    if s.len() == 0 {
        -1
    } else if s[0].0 == k {
        0
    } else {
        let r = ledger_find(s.drop_first(), k);
        if r < 0 {
            -1
        } else {
            r + 1
        }
    }
}

/// The entry keyed `k`, when there is one.
pub open spec fn ledger_lookup(s: Seq<(Seq<u8>, AddressView)>, k: Seq<u8>) -> Option<AddressView> {
    let i = ledger_find(s, k);
    if i >= 0 {
        Some(s[i].1)
    } else {
        None
    }
}

/// Replaces the first entry keyed `k`, or appends a new one.
pub open spec fn ledger_upsert(
    s: Seq<(Seq<u8>, AddressView)>,
    k: Seq<u8>,
    a: AddressView,
) -> Seq<(Seq<u8>, AddressView)> {
    let i = ledger_find(s, k);
    if i >= 0 {
        s.update(i, (k, a))
    } else {
        s.push((k, a))
    }
}

/// What `ledger_find` returns: -1 exactly when the key is absent, else the
/// first index holding it.
pub proof fn lemma_find_props(s: Seq<(Seq<u8>, AddressView)>, k: Seq<u8>)
    ensures
        ledger_find(s, k) == -1 || 0 <= ledger_find(s, k) < s.len(),
        ledger_find(s, k) == -1 ==> forall|j: int| 0 <= j < s.len() ==> s[j].0 != k,
        ledger_find(s, k) >= 0 ==> s[ledger_find(s, k)].0 == k,
        ledger_find(s, k) >= 0 ==> forall|j: int| 0 <= j < ledger_find(s, k) ==> s[j].0 != k,
    decreases s.len(),
{
    if s.len() > 0 && s[0].0 != k {
        lemma_find_props(s.drop_first(), k);
        assert forall|j: int| 1 <= j < s.len() implies s.drop_first()[j - 1] == s[j] by {}
    }
}

/// A position that holds `k` after positions that do not is what
/// `ledger_find` returns.
pub proof fn lemma_find_char(s: Seq<(Seq<u8>, AddressView)>, k: Seq<u8>, i: int)
    requires
        0 <= i < s.len(),
        s[i].0 == k,
        forall|j: int| 0 <= j < i ==> s[j].0 != k,
    ensures
        ledger_find(s, k) == i,
    decreases s.len(),
{
    if i > 0 {
        assert(s[0].0 != k);
        assert forall|j: int| 0 <= j < i - 1 implies s.drop_first()[j].0 != k by {
            assert(s.drop_first()[j] == s[j + 1]);
        }
        assert(s.drop_first()[i - 1] == s[i]);
        lemma_find_char(s.drop_first(), k, i - 1);
    }
}

/// A key that no position holds is not found.
pub proof fn lemma_find_absent(s: Seq<(Seq<u8>, AddressView)>, k: Seq<u8>)
    requires
        forall|j: int| 0 <= j < s.len() ==> s[j].0 != k,
    ensures
        ledger_find(s, k) == -1,
{
    lemma_find_props(s, k);
    if ledger_find(s, k) >= 0 {
        assert(s[ledger_find(s, k)].0 == k);
    }
}

/// Looking up the key just written returns the written entry.
pub proof fn lemma_lookup_upsert_same(s: Seq<(Seq<u8>, AddressView)>, k: Seq<u8>, a: AddressView)
    ensures
        ledger_lookup(ledger_upsert(s, k, a), k) == Some(a),
{
    lemma_find_props(s, k);
    let i = ledger_find(s, k);
    if i >= 0 {
        let s2 = s.update(i, (k, a));
        assert forall|j: int| 0 <= j < i implies s2[j].0 != k by {
            assert(s2[j] == s[j]);
        }
        lemma_find_char(s2, k, i);
    } else {
        let s2 = s.push((k, a));
        assert forall|j: int| 0 <= j < s.len() implies s2[j].0 != k by {
            assert(s2[j] == s[j]);
        }
        assert(s2[s.len() as int].0 == k);
        lemma_find_char(s2, k, s.len() as int);
    }
}

/// Writing one key leaves every other key's lookup unchanged.
pub proof fn lemma_lookup_upsert_other(
    s: Seq<(Seq<u8>, AddressView)>,
    k: Seq<u8>,
    a: AddressView,
    k2: Seq<u8>,
)
    requires
        k2 != k,
    ensures
        ledger_lookup(ledger_upsert(s, k, a), k2) == ledger_lookup(s, k2),
{
    lemma_find_props(s, k);
    lemma_find_props(s, k2);
    let i = ledger_find(s, k);
    let i2 = ledger_find(s, k2);
    if i >= 0 {
        let s2 = s.update(i, (k, a));
        if i2 >= 0 {
            assert forall|j: int| 0 <= j < i2 implies s2[j].0 != k2 by {
                if j != i {
                    assert(s2[j] == s[j]);
                }
            }
            assert(s2[i2] == s[i2]);
            lemma_find_char(s2, k2, i2);
        } else {
            assert forall|j: int| 0 <= j < s2.len() implies s2[j].0 != k2 by {
                if j != i {
                    assert(s2[j] == s[j]);
                }
            }
            lemma_find_absent(s2, k2);
        }
    } else {
        let s2 = s.push((k, a));
        if i2 >= 0 {
            assert forall|j: int| 0 <= j < i2 implies s2[j].0 != k2 by {
                assert(s2[j] == s[j]);
            }
            assert(s2[i2] == s[i2]);
            lemma_find_char(s2, k2, i2);
        } else {
            assert forall|j: int| 0 <= j < s2.len() implies s2[j].0 != k2 by {
                if j < s.len() {
                    assert(s2[j] == s[j]);
                }
            }
            lemma_find_absent(s2, k2);
        }
    }
}

// ---------------------------------------------------------------------------
// Executable association-list operations
// ---------------------------------------------------------------------------

impl Address {
    /// A field-wise copy of the entry.
    pub fn duplicate(&self) -> (r: Address)
        ensures
            r@ == self@,
    {
        let mut linked: Vec<AddressFormat> = Vec::new();
        let mut i: usize = 0;
        while i < self.linked_addresses.len()
            invariant
                i <= self.linked_addresses@.len(),
                linked@.len() == i,
                forall|j: int| 0 <= j < i ==> #[trigger] linked@[j].address@
                    == self.linked_addresses@[j].address@,
            decreases self.linked_addresses@.len() - i,
        {
            linked.push(AddressFormat { address: copy_bytes(&self.linked_addresses[i].address) });
            i = i + 1;
        }
        let r = Address {
            last_transaction: copy_bytes(&self.last_transaction),
            balance: self.balance,
            linked_addresses: linked,
        };
        proof {
            assert(r@.linked_addresses =~= self@.linked_addresses);
        }
        r
    }
}

/// A fresh entry: zeroed last-transaction signature, balance 0, no links.
pub open spec fn fresh_address_view() -> AddressView {
    AddressView {
        last_transaction: Seq::new(64, |i: int| 0u8),
        balance: 0,
        linked_addresses: Seq::empty(),
    }
}

/// Builds a fresh entry.
pub fn fresh_address() -> (r: Address)
    ensures
        r@ == fresh_address_view(),
{
    let mut zero: Vec<u8> = Vec::new();
    let mut i: usize = 0;
    while i < 64
        invariant
            i <= 64,
            zero@.len() == i,
            forall|j: int| 0 <= j < i ==> zero@[j] == 0u8,
        decreases 64 - i,
    {
        zero.push(0u8);
        i = i + 1;
    }
    let r = Address { last_transaction: zero, balance: 0, linked_addresses: Vec::new() };
    proof {
        assert(r@.last_transaction =~= fresh_address_view().last_transaction);
        assert(r@.linked_addresses =~= fresh_address_view().linked_addresses);
    }
    r
}

impl AddressesState {
    /// An empty snapshot.
    pub fn new() -> (r: AddressesState)
        ensures
            r@ == Seq::<(Seq<u8>, AddressView)>::empty(),
    {
        let r = AddressesState { state: Vec::new() };
        proof {
            assert(r@ =~= Seq::<(Seq<u8>, AddressView)>::empty());
        }
        r
    }

    /// Index of the first entry keyed `k`, if any.
    fn find_index(&self, k: &[u8]) -> (r: Option<usize>)
        ensures
            match r {
                Some(i) => ledger_find(self@, k@) == i && i < self.state@.len(),
                None => ledger_find(self@, k@) == -1,
            },
    {
        let mut i: usize = 0;
        while i < self.state.len()
            invariant
                i <= self.state@.len(),
                forall|j: int| 0 <= j < i ==> self@[j].0 != k@,
            decreases self.state@.len() - i,
        {
            if bytes_eq(self.state[i].0.as_slice(), k) {
                proof {
                    lemma_find_char(self@, k@, i as int);
                }
                return Some(i);
            }
            i = i + 1;
        }
        proof {
            lemma_find_absent(self@, k@);
        }
        None
    }

    /// The entry keyed `k`, when the snapshot has one.
    pub fn get(&self, k: &[u8]) -> (r: Option<&Address>)
        ensures
            match r {
                Some(a) => ledger_lookup(self@, k@) == Some(a@),
                None => ledger_lookup(self@, k@) is None,
            },
    {
        match self.find_index(k) {
            Some(i) => Some(&self.state[i].1),
            None => None,
        }
    }

    /// Writes `a` under `k`, replacing the previous entry if there was one.
    pub fn upsert(&mut self, k: Vec<u8>, a: Address)
        ensures
            final(self)@ == ledger_upsert(old(self)@, k@, a@),
    {
        match self.find_index(k.as_slice()) {
            Some(i) => {
                self.state.set(i, (k, a));
                proof {
                    assert(self@ =~= ledger_upsert(old(self)@, k@, a@));
                }
            },
            None => {
                self.state.push((k, a));
                proof {
                    assert(self@ =~= ledger_upsert(old(self)@, k@, a@));
                }
            },
        }
    }
}

// ---------------------------------------------------------------------------
// The deriver
// ---------------------------------------------------------------------------

/// Replay of one transaction against a snapshot:
/// 1. a sender entry is created if the sender's key is new;
/// 2. a *transfer-value* payload credits its recipient's entry (creating it
///    if needed) with the payload's balance variation;
/// 3. the transaction's own balance variation is added to the sender's
///    balance; and
/// 4. the sender's last-transaction signature becomes this transaction's.
pub open spec fn derive_step(
    s: Seq<(Seq<u8>, AddressView)>,
    t: TransactionView,
) -> Seq<(Seq<u8>, AddressView)> {
    let s1 = if ledger_find(s, t.pk) >= 0 {
        s
    } else {
        ledger_upsert(s, t.pk, fresh_address_view())
    };
    let s2 = match t.data {
        TransactionDataView::Type7 { recipient_pk, balance_variation } => {
            let r = match ledger_lookup(s1, recipient_pk) {
                Some(a) => a,
                None => fresh_address_view(),
            };
            ledger_upsert(
                s1,
                recipient_pk,
                AddressView { balance: r.balance.wrapping_add(balance_variation), ..r },
            )
        },
        _ => s1,
    };
    let sender = match ledger_lookup(s2, t.pk) {
        Some(a) => a,
        None => fresh_address_view(),
    };
    ledger_upsert(
        s2,
        t.pk,
        AddressView {
            last_transaction: t.signature,
            balance: sender.balance.wrapping_add(t.balance_variation),
            linked_addresses: sender.linked_addresses,
        },
    )
}

/// Replay of a whole transaction sequence, in order.
pub open spec fn derive_spec(
    s: Seq<(Seq<u8>, AddressView)>,
    txs: Seq<TransactionView>,
) -> Seq<(Seq<u8>, AddressView)>
    decreases txs.len(),
{
    if txs.len() == 0 {
        s
    } else {
        derive_step(derive_spec(s, txs.drop_last()), txs.last())
    }
}

/// Replays `transactions` against `previous_state`, in the order given.
pub fn derive(previous_state: AddressesState, transactions: &Vec<Transaction>) -> (r:
    AddressesState)
    ensures
        r@ == derive_spec(
            previous_state@,
            transactions@.map_values(|t: Transaction| t@),
        ),
{
    let mut state = previous_state;
    let mut i: usize = 0;
    while i < transactions.len()
        invariant
            i <= transactions@.len(),
            state@ == derive_spec(
                previous_state@,
                transactions@.map_values(|t: Transaction| t@).take(i as int),
            ),
        decreases transactions@.len() - i,
    {
        let ghost pre = state@;
        let ghost views = transactions@.map_values(|t: Transaction| t@);
        let t = &transactions[i];
        // Step 1: make sure the sender has an entry.
        let sender_missing = match state.get(t.pk.as_slice()) {
            Some(_) => false,
            None => true,
        };
        if sender_missing {
            state.upsert(copy_bytes(&t.pk), fresh_address());
        }
        let ghost s1 = state@;
        // Step 2: credit a transfer's recipient.
        match &t.data {
            crate::transactions::TransactionData::Type7(p) => {
                let recipient = match state.get(p.recipient_pk.as_slice()) {
                    Some(a) => a.duplicate(),
                    None => fresh_address(),
                };
                let credited = Address {
                    last_transaction: recipient.last_transaction,
                    balance: recipient.balance.wrapping_add(p.balance_variation),
                    linked_addresses: recipient.linked_addresses,
                };
                state.upsert(copy_bytes(&p.recipient_pk), credited);
            },
            _ => {},
        }
        let ghost s2 = state@;
        // Steps 3 and 4: settle the sender's balance and last transaction.
        let sender = match state.get(t.pk.as_slice()) {
            Some(a) => a.duplicate(),
            None => fresh_address(),
        };
        let settled = Address {
            last_transaction: copy_bytes(&t.signature),
            balance: sender.balance.wrapping_add(t.balance_variation),
            linked_addresses: sender.linked_addresses,
        };
        state.upsert(copy_bytes(&t.pk), settled);
        proof {
            assert(state@ == derive_step(pre, t@));
            assert(views.take(i + 1).drop_last() =~= views.take(i as int));
            assert(views.take(i + 1).last() == views[i as int]);
        }
        i = i + 1;
    }
    proof {
        assert(transactions@.map_values(|t: Transaction| t@).take(transactions@.len() as int)
            =~= transactions@.map_values(|t: Transaction| t@));
    }
    state
}

// ---------------------------------------------------------------------------
// Laws of the deriver
// ---------------------------------------------------------------------------

/// The balance an account holds in `s`, counting a missing entry as zero.
pub open spec fn balance_of(s: Seq<(Seq<u8>, AddressView)>, k: Seq<u8>) -> int {
    match ledger_lookup(s, k) {
        Some(a) => a.balance as int,
        None => 0,
    }
}

/// Law: replaying a valid *transfer-value* transaction of variation `v`
/// increases the recipient's balance by exactly `v` and the sender's by
/// exactly `v + 1` (the transaction's own variation, as generated), provided
/// sender and recipient differ and neither balance overflows.
pub proof fn lemma_transfer_balances(
    s: Seq<(Seq<u8>, AddressView)>,
    t: TransactionView,
    v: i64,
)
    requires
        t.data matches TransactionDataView::Type7 { recipient_pk, balance_variation } && recipient_pk
            != t.pk && balance_variation == v,
        t.balance_variation == v + 1,
        i64::MIN <= balance_of(s, t.data->Type7_recipient_pk) + v <= i64::MAX,
        i64::MIN <= balance_of(s, t.pk) + v + 1 <= i64::MAX,
    ensures
        balance_of(derive_step(s, t), t.data->Type7_recipient_pk) == balance_of(
            s,
            t.data->Type7_recipient_pk,
        ) + v,
        balance_of(derive_step(s, t), t.pk) == balance_of(s, t.pk) + v + 1,
{
    let rk = t.data->Type7_recipient_pk;
    let s1 = if ledger_find(s, t.pk) >= 0 {
        s
    } else {
        ledger_upsert(s, t.pk, fresh_address_view())
    };
    if ledger_find(s, t.pk) < 0 {
        lemma_find_props(s, t.pk);
        lemma_lookup_upsert_same(s, t.pk, fresh_address_view());
        lemma_lookup_upsert_other(s, t.pk, fresh_address_view(), rk);
    }
    assert(balance_of(s1, rk) == balance_of(s, rk));
    assert(balance_of(s1, t.pk) == balance_of(s, t.pk));
    let r0 = match ledger_lookup(s1, rk) {
        Some(a) => a,
        None => fresh_address_view(),
    };
    let credited = AddressView { balance: r0.balance.wrapping_add(v), ..r0 };
    let s2 = ledger_upsert(s1, rk, credited);
    lemma_lookup_upsert_same(s1, rk, credited);
    lemma_lookup_upsert_other(s1, rk, credited, t.pk);
    assert(balance_of(s2, rk) == balance_of(s1, rk) + v);
    assert(balance_of(s2, t.pk) == balance_of(s1, t.pk));
    let sender = match ledger_lookup(s2, t.pk) {
        Some(a) => a,
        None => fresh_address_view(),
    };
    let settled = AddressView {
        last_transaction: t.signature,
        balance: sender.balance.wrapping_add(t.balance_variation),
        linked_addresses: sender.linked_addresses,
    };
    lemma_lookup_upsert_same(s2, t.pk, settled);
    lemma_lookup_upsert_other(s2, t.pk, settled, rk);
    assert(derive_step(s, t) == ledger_upsert(s2, t.pk, settled));
    assert(balance_of(derive_step(s, t), rk) == balance_of(s, rk) + v);
    assert(balance_of(derive_step(s, t), t.pk) == balance_of(s, t.pk) + v + 1);
}

/// Upserting a well-formed entry keeps the snapshot well-formed and grows
/// it by at most one entry.
pub proof fn lemma_upsert_wf(s: Seq<(Seq<u8>, AddressView)>, k: Seq<u8>, a: AddressView)
    requires
        ledger_wf(s),
        k.len() == 33,
        addr_wf(a),
        s.len() + 1 <= u64::MAX,
    ensures
        ledger_wf(ledger_upsert(s, k, a)),
        s.len() <= ledger_upsert(s, k, a).len() <= s.len() + 1,
        ledger_find(s, k) >= 0 ==> ledger_upsert(s, k, a).len() == s.len(),
{
    lemma_find_props(s, k);
    let i = ledger_find(s, k);
    if i >= 0 {
        let s2 = s.update(i, (k, a));
        assert forall|j: int| 0 <= j < s2.len() implies #[trigger] s2[j].0.len() == 33 && addr_wf(
            s2[j].1,
        ) by {
            if j != i {
                assert(s2[j] == s[j]);
            }
        }
    } else {
        let s2 = s.push((k, a));
        assert forall|j: int| 0 <= j < s2.len() implies #[trigger] s2[j].0.len() == 33 && addr_wf(
            s2[j].1,
        ) by {
            if j < s.len() {
                assert(s2[j] == s[j]);
            }
        }
    }
}

/// Derivation preserves structural well-formedness, given well-formed
/// transactions.
pub proof fn lemma_derive_step_wf(s: Seq<(Seq<u8>, AddressView)>, t: TransactionView)
    requires
        ledger_wf(s),
        tx_wf(t),
        s.len() + 3 <= u64::MAX,
    ensures
        ledger_wf(derive_step(s, t)),
        derive_step(s, t).len() <= s.len() + 2,
{
    assert(addr_wf(fresh_address_view()));
    lemma_find_props(s, t.pk);
    let s1 = if ledger_find(s, t.pk) >= 0 {
        s
    } else {
        ledger_upsert(s, t.pk, fresh_address_view())
    };
    if ledger_find(s, t.pk) < 0 {
        lemma_upsert_wf(s, t.pk, fresh_address_view());
        lemma_lookup_upsert_same(s, t.pk, fresh_address_view());
    }
    assert(ledger_wf(s1) && s1.len() <= s.len() + 1);
    assert(ledger_lookup(s1, t.pk) is Some);
    lemma_find_props(s1, t.pk);
    let s2 = match t.data {
        TransactionDataView::Type7 { recipient_pk, balance_variation } => {
            let r = match ledger_lookup(s1, recipient_pk) {
                Some(a) => a,
                None => fresh_address_view(),
            };
            let credited = AddressView { balance: r.balance.wrapping_add(balance_variation), ..r };
            lemma_find_props(s1, recipient_pk);
            assert(addr_wf(credited));
            lemma_upsert_wf(s1, recipient_pk, credited);
            lemma_lookup_upsert_same(s1, recipient_pk, credited);
            if recipient_pk != t.pk {
                lemma_lookup_upsert_other(s1, recipient_pk, credited, t.pk);
            }
            ledger_upsert(s1, recipient_pk, credited)
        },
        _ => s1,
    };
    assert(ledger_wf(s2) && s2.len() <= s.len() + 2);
    assert(ledger_lookup(s2, t.pk) is Some);
    lemma_find_props(s2, t.pk);
    let sender = match ledger_lookup(s2, t.pk) {
        Some(a) => a,
        None => fresh_address_view(),
    };
    let settled = AddressView {
        last_transaction: t.signature,
        balance: sender.balance.wrapping_add(t.balance_variation),
        linked_addresses: sender.linked_addresses,
    };
    assert(addr_wf(settled));
    lemma_upsert_wf(s2, t.pk, settled);
    assert(ledger_find(s2, t.pk) >= 0);
    assert(derive_step(s, t) == ledger_upsert(s2, t.pk, settled));
}

// ---------------------------------------------------------------------------
// Canonical encoding of snapshots
// ---------------------------------------------------------------------------

/// Encoder of one linked address.
pub open spec fn link_enc() -> spec_fn(Seq<u8>) -> Seq<u8> {
    |x: Seq<u8>| enc_bytes_spec(x)
}

/// Parser of one linked address.
pub open spec fn link_dec() -> spec_fn(Seq<u8>, int) -> Option<(Seq<u8>, int)> {
    |ss: Seq<u8>, pp: int| dec_bytes_at(ss, pp)
}

/// Canonical encoding of a ledger entry's value.
pub open spec fn addr_enc(a: AddressView) -> Seq<u8> {
    enc_bytes_spec(a.last_transaction) + i64_le(a.balance) + u64_le(
        a.linked_addresses.len() as u64,
    ) + items_enc(a.linked_addresses, link_enc())
}

/// Canonical encoding of a keyed ledger entry.
pub open spec fn entry_enc(e: (Seq<u8>, AddressView)) -> Seq<u8> {
    enc_bytes_spec(e.0) + addr_enc(e.1)
}

/// Encoder of one keyed ledger entry.
pub open spec fn entry_enc_fn() -> spec_fn((Seq<u8>, AddressView)) -> Seq<u8> {
    |e: (Seq<u8>, AddressView)| entry_enc(e)
}

/// Canonical encoding of a whole snapshot: entry count, then the entries.
pub open spec fn ledger_enc(s: Seq<(Seq<u8>, AddressView)>) -> Seq<u8> {
    u64_le(s.len() as u64) + items_enc(s, entry_enc_fn())
}

/// Parse of a ledger entry's value at `pos`.
pub open spec fn dec_addr_at(s: Seq<u8>, pos: int) -> Option<(AddressView, int)> {
    match dec_bytes_at(s, pos) {
        Some((lt, p1)) => match dec_i64_at(s, p1) {
            Some((bal, p2)) => match dec_u64_at(s, p2) {
                Some((n, p3)) => match dec_items_at(s, p3, n as nat, link_dec()) {
                    Some((links, p4)) => Some(
                        (
                            AddressView {
                                last_transaction: lt,
                                balance: bal,
                                linked_addresses: links,
                            },
                            p4,
                        ),
                    ),
                    None => None,
                },
                None => None,
            },
            None => None,
        },
        None => None,
    }
}

/// Parse of a keyed ledger entry at `pos`.
pub open spec fn dec_entry_at(s: Seq<u8>, pos: int) -> Option<((Seq<u8>, AddressView), int)> {
    match dec_bytes_at(s, pos) {
        Some((k, p1)) => match dec_addr_at(s, p1) {
            Some((a, p2)) => Some(((k, a), p2)),
            None => None,
        },
        None => None,
    }
}

/// Parser of one keyed ledger entry.
pub open spec fn entry_dec_fn() -> spec_fn(Seq<u8>, int) -> Option<((Seq<u8>, AddressView), int)> {
    |ss: Seq<u8>, pp: int| dec_entry_at(ss, pp)
}

/// Parse of a whole snapshot at `pos`.
pub open spec fn dec_ledger_at(s: Seq<u8>, pos: int) -> Option<(Seq<(Seq<u8>, AddressView)>, int)> {
    match dec_u64_at(s, pos) {
        Some((n, p1)) => dec_items_at(s, p1, n as nat, entry_dec_fn()),
        None => None,
    }
}

/// Appends the canonical encoding of `a` to `out`.
pub fn encode_address(a: &Address, out: &mut Vec<u8>)
    ensures
        final(out)@ == old(out)@ + addr_enc(a@),
{
    enc_bytes(out, a.last_transaction.as_slice());
    enc_i64(out, a.balance);
    enc_u64(out, a.linked_addresses.len() as u64);
    let ghost base = out@;
    let mut i: usize = 0;
    while i < a.linked_addresses.len()
        invariant
            i <= a.linked_addresses@.len(),
            out@ == base + items_enc(a@.linked_addresses.take(i as int), link_enc()),
        decreases a.linked_addresses@.len() - i,
    {
        enc_bytes(out, a.linked_addresses[i].address.as_slice());
        proof {
            lemma_items_enc_push(
                a@.linked_addresses.take(i as int),
                a@.linked_addresses[i as int],
                link_enc(),
            );
            assert(a@.linked_addresses.take(i + 1) =~= a@.linked_addresses.take(i as int).push(
                a@.linked_addresses[i as int],
            ));
            assert(out@ =~= base + items_enc(a@.linked_addresses.take(i + 1), link_enc()));
        }
        i = i + 1;
    }
    proof {
        assert(a@.linked_addresses.take(a@.linked_addresses.len() as int) =~= a@.linked_addresses);
        assert(out@ =~= old(out)@ + addr_enc(a@));
    }
}

/// Appends the canonical encoding of the snapshot `st` to `out`.
pub fn encode_ledger(st: &AddressesState, out: &mut Vec<u8>)
    ensures
        final(out)@ == old(out)@ + ledger_enc(st@),
{
    enc_u64(out, st.state.len() as u64);
    let ghost base = out@;
    let mut i: usize = 0;
    while i < st.state.len()
        invariant
            i <= st.state@.len(),
            out@ == base + items_enc(st@.take(i as int), entry_enc_fn()),
        decreases st.state@.len() - i,
    {
        enc_bytes(out, st.state[i].0.as_slice());
        encode_address(&st.state[i].1, out);
        proof {
            lemma_items_enc_push(st@.take(i as int), st@[i as int], entry_enc_fn());
            assert(st@.take(i + 1) =~= st@.take(i as int).push(st@[i as int]));
            assert(out@ =~= base + items_enc(st@.take(i + 1), entry_enc_fn()));
        }
        i = i + 1;
    }
    proof {
        assert(st@.take(st@.len() as int) =~= st@);
        assert(out@ =~= old(out)@ + ledger_enc(st@));
    }
}

/// Reads a ledger entry's value at `pos`.
pub fn decode_address(buf: &[u8], pos: usize) -> (r: Option<(Address, usize)>)
    ensures
        match r {
            Some((a, p)) => dec_addr_at(buf@, pos as int) == Some((a@, p as int)),
            None => dec_addr_at(buf@, pos as int) is None,
        },
{
    let (lt, p1) = match dec_bytes(buf, pos) {
        Some(x) => x,
        None => {
            return None;
        },
    };
    let (bal, p2) = match dec_i64(buf, p1) {
        Some(x) => x,
        None => {
            return None;
        },
    };
    let (n, p3) = match dec_u64(buf, p2) {
        Some(x) => x,
        None => {
            return None;
        },
    };
    let mut links: Vec<AddressFormat> = Vec::new();
    let ghost l_done: Seq<Seq<u8>> = Seq::empty();
    let mut cur: usize = p3;
    let mut i: u64 = 0;
    while i < n
        invariant
            i <= n,
            links@.len() == i,
            l_done.len() == i,
            dec_bytes_at(buf@, pos as int) == Some((lt@, p1 as int)),
            dec_i64_at(buf@, p1 as int) == Some((bal, p2 as int)),
            dec_u64_at(buf@, p2 as int) == Some((n, p3 as int)),
            forall|j: int| 0 <= j < i ==> #[trigger] links@[j].address@ == l_done[j],
            dec_items_at(buf@, p3 as int, n as nat, link_dec()) == (match dec_items_at(
                buf@,
                cur as int,
                (n - i) as nat,
                link_dec(),
            ) {
                Some((l, q)) => Some((l_done + l, q)),
                None => None,
            }),
        decreases n - i,
    {
        let (b, p) = match dec_bytes(buf, cur) {
            Some(x) => x,
            None => {
                proof {
                    assert(dec_items_at(buf@, cur as int, (n - i) as nat, link_dec()) is None);
                }
                return None;
            },
        };
        proof {
            let rest = dec_items_at(buf@, p as int, (n - i - 1) as nat, link_dec());
            if rest is Some {
                let (l, q) = rest->Some_0;
                assert(l_done + (seq![b@] + l) =~= (l_done + seq![b@]) + l);
                assert(l_done.push(b@) =~= l_done + seq![b@]);
            }
        }
        links.push(AddressFormat { address: b });
        proof {
            l_done = l_done.push(links@[i as int].address@);
        }
        cur = p;
        i = i + 1;
    }
    proof {
        assert(dec_items_at(buf@, cur as int, 0, link_dec()) == Some(
            (Seq::<Seq<u8>>::empty(), cur as int),
        ));
        assert(l_done + Seq::<Seq<u8>>::empty() =~= l_done);
    }
    let a = Address { last_transaction: lt, balance: bal, linked_addresses: links };
    proof {
        assert(a@.linked_addresses =~= l_done);
    }
    Some((a, cur))
}

/// Reads a whole snapshot at `pos`.
pub fn decode_ledger(buf: &[u8], pos: usize) -> (r: Option<(AddressesState, usize)>)
    ensures
        match r {
            Some((st, p)) => dec_ledger_at(buf@, pos as int) == Some((st@, p as int)),
            None => dec_ledger_at(buf@, pos as int) is None,
        },
{
    let (n, p1) = match dec_u64(buf, pos) {
        Some(x) => x,
        None => {
            return None;
        },
    };
    let mut entries: Vec<(Vec<u8>, Address)> = Vec::new();
    let ghost l_done: Seq<(Seq<u8>, AddressView)> = Seq::empty();
    let mut cur: usize = p1;
    let mut i: u64 = 0;
    while i < n
        invariant
            i <= n,
            entries@.len() == i,
            l_done.len() == i,
            dec_u64_at(buf@, pos as int) == Some((n, p1 as int)),
            forall|j: int| 0 <= j < i ==> #[trigger] entries@[j].0@ == l_done[j].0
                && entries@[j].1@ == l_done[j].1,
            dec_items_at(buf@, p1 as int, n as nat, entry_dec_fn()) == (match dec_items_at(
                buf@,
                cur as int,
                (n - i) as nat,
                entry_dec_fn(),
            ) {
                Some((l, q)) => Some((l_done + l, q)),
                None => None,
            }),
        decreases n - i,
    {
        let (k, pk) = match dec_bytes(buf, cur) {
            Some(x) => x,
            None => {
                proof {
                    assert(dec_items_at(buf@, cur as int, (n - i) as nat, entry_dec_fn()) is None);
                }
                return None;
            },
        };
        let (a, p) = match decode_address(buf, pk) {
            Some(x) => x,
            None => {
                proof {
                    assert(dec_items_at(buf@, cur as int, (n - i) as nat, entry_dec_fn()) is None);
                }
                return None;
            },
        };
        proof {
            let rest = dec_items_at(buf@, p as int, (n - i - 1) as nat, entry_dec_fn());
            if rest is Some {
                let (l, q) = rest->Some_0;
                assert(l_done + (seq![(k@, a@)] + l) =~= (l_done + seq![(k@, a@)]) + l);
                assert(l_done.push((k@, a@)) =~= l_done + seq![(k@, a@)]);
            }
        }
        let ghost pre_entries = entries@;
        entries.push((k, a));
        proof {
            let pre_done = l_done;
            l_done = l_done.push((entries@[i as int].0@, entries@[i as int].1@));
            assert forall|j: int| 0 <= j < i + 1 implies #[trigger] entries@[j].0@ == l_done[j].0
                && entries@[j].1@ == l_done[j].1 by {
                if j < i {
                    assert(entries@[j] == pre_entries[j]);
                    assert(l_done[j] == pre_done[j]);
                    assert(pre_entries[j].0@ == pre_done[j].0);
                    assert(pre_entries[j].1@ == pre_done[j].1);
                }
            }
        }
        cur = p;
        i = i + 1;
    }
    proof {
        assert(dec_items_at(buf@, cur as int, 0, entry_dec_fn()) == Some(
            (Seq::<(Seq<u8>, AddressView)>::empty(), cur as int),
        ));
        assert(l_done + Seq::<(Seq<u8>, AddressView)>::empty() =~= l_done);
    }
    let st = AddressesState { state: entries };
    proof {
        assert forall|j: int| 0 <= j < st@.len() implies st@[j] == l_done[j] by {
            assert(entries@[j].0@ == l_done[j].0 && entries@[j].1@ == l_done[j].1);
        }
        assert(st@ =~= l_done);
    }
    Some((st, cur))
}

/// If the bytes at `pos` are `addr_enc(a)`, the value parse yields `a`.
#[verifier::rlimit(50)]
pub proof fn lemma_dec_addr_of_enc(s: Seq<u8>, pos: int, a: AddressView)
    requires
        0 <= pos,
        addr_wf(a),
        pos + addr_enc(a).len() <= s.len(),
        s.subrange(pos, pos + addr_enc(a).len() as int) == addr_enc(a),
    ensures
        dec_addr_at(s, pos) == Some((a, pos + addr_enc(a).len())),
{
    let e = addr_enc(a);
    let links = a.linked_addresses;
    let p1 = pos + 8 + a.last_transaction.len() as int;
    let p2 = p1 + 8;
    let p3 = p2 + 8;
    assert(s.subrange(pos, p1) =~= e.subrange(0, p1 - pos));
    assert(e.subrange(0, p1 - pos) =~= enc_bytes_spec(a.last_transaction));
    lemma_dec_bytes_of_enc(s, pos, a.last_transaction);
    assert(s.subrange(p1, p2) =~= e.subrange(p1 - pos, p2 - pos));
    assert(e.subrange(p1 - pos, p2 - pos) =~= i64_le(a.balance));
    lemma_dec_i64_of_enc(s, p1, a.balance);
    assert(s.subrange(p2, p3) =~= e.subrange(p2 - pos, p3 - pos));
    assert(e.subrange(p2 - pos, p3 - pos) =~= u64_le(links.len() as u64));
    lemma_dec_u64_of_enc(s, p2, links.len() as u64);
    assert(s.subrange(p3, p3 + items_enc(links, link_enc()).len() as int) =~= e.subrange(
        p3 - pos,
        e.len() as int,
    ));
    assert(e.subrange(p3 - pos, e.len() as int) =~= items_enc(links, link_enc()));
    assert forall|j: int, p: int|
        0 <= j < links.len() && 0 <= p && p + link_enc()(#[trigger] links[j]).len() <= s.len()
            && s.subrange(p, #[trigger] (p + link_enc()(links[j]).len() as int)) == link_enc()(
            links[j],
        ) implies link_dec()(s, p) == Some((links[j], p + link_enc()(links[j]).len())) by {
        lemma_dec_bytes_of_enc(s, p, links[j]);
    }
    lemma_dec_items_of_enc(s, p3, links, link_enc(), link_dec());
}

/// If the bytes at `pos` are `entry_enc(en)`, the entry parse yields `en`.
pub proof fn lemma_dec_entry_of_enc(s: Seq<u8>, pos: int, en: (Seq<u8>, AddressView))
    requires
        0 <= pos,
        en.0.len() == 33,
        addr_wf(en.1),
        pos + entry_enc(en).len() <= s.len(),
        s.subrange(pos, pos + entry_enc(en).len() as int) == entry_enc(en),
    ensures
        dec_entry_at(s, pos) == Some((en, pos + entry_enc(en).len())),
{
    let e = entry_enc(en);
    let p1 = pos + 8 + en.0.len() as int;
    assert(s.subrange(pos, p1) =~= e.subrange(0, p1 - pos));
    assert(e.subrange(0, p1 - pos) =~= enc_bytes_spec(en.0));
    lemma_dec_bytes_of_enc(s, pos, en.0);
    assert(s.subrange(p1, p1 + addr_enc(en.1).len() as int) =~= e.subrange(
        p1 - pos,
        e.len() as int,
    ));
    assert(e.subrange(p1 - pos, e.len() as int) =~= addr_enc(en.1));
    lemma_dec_addr_of_enc(s, p1, en.1);
}

/// If the bytes at `pos` are `ledger_enc(st)`, the snapshot parse yields
/// `st`.
pub proof fn lemma_dec_ledger_of_enc(s: Seq<u8>, pos: int, st: Seq<(Seq<u8>, AddressView)>)
    requires
        0 <= pos,
        ledger_wf(st),
        pos + ledger_enc(st).len() <= s.len(),
        s.subrange(pos, pos + ledger_enc(st).len() as int) == ledger_enc(st),
    ensures
        dec_ledger_at(s, pos) == Some((st, pos + ledger_enc(st).len())),
{
    let e = ledger_enc(st);
    let p1 = pos + 8;
    assert(s.subrange(pos, p1) =~= e.subrange(0, 8));
    assert(e.subrange(0, 8) =~= u64_le(st.len() as u64));
    lemma_dec_u64_of_enc(s, pos, st.len() as u64);
    assert(s.subrange(p1, p1 + items_enc(st, entry_enc_fn()).len() as int) =~= e.subrange(
        8,
        e.len() as int,
    ));
    assert(e.subrange(8, e.len() as int) =~= items_enc(st, entry_enc_fn()));
    assert forall|j: int, p: int|
        0 <= j < st.len() && 0 <= p && p + entry_enc_fn()(#[trigger] st[j]).len() <= s.len()
            && s.subrange(p, #[trigger] (p + entry_enc_fn()(st[j]).len() as int)) == entry_enc_fn()(
            st[j],
        ) implies entry_dec_fn()(s, p) == Some((st[j], p + entry_enc_fn()(st[j]).len())) by {
        lemma_dec_entry_of_enc(s, p, st[j]);
    }
    lemma_dec_items_of_enc(s, p1, st, entry_enc_fn(), entry_dec_fn());
}

impl AddressesState {
    /// A field-wise copy of the snapshot.
    pub fn duplicate(&self) -> (r: AddressesState)
        ensures
            r@ == self@,
    {
        let mut state: Vec<(Vec<u8>, Address)> = Vec::new();
        let mut i: usize = 0;
        while i < self.state.len()
            invariant
                i <= self.state@.len(),
                state@.len() == i,
                forall|j: int| 0 <= j < i ==> #[trigger] state@[j].0@ == self.state@[j].0@
                    && state@[j].1@ == self.state@[j].1@,
            decreases self.state@.len() - i,
        {
            let ghost pre = state@;
            state.push((copy_bytes(&self.state[i].0), self.state[i].1.duplicate()));
            proof {
                assert forall|j: int| 0 <= j < i + 1 implies #[trigger] state@[j].0@
                    == self.state@[j].0@ && state@[j].1@ == self.state@[j].1@ by {
                    if j < i {
                        assert(state@[j] == pre[j]);
                    }
                }
            }
            i = i + 1;
        }
        let r = AddressesState { state };
        proof {
            assert(r@ =~= self@);
        }
        r
    }
}

} // verus!
