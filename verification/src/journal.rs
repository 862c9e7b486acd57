//! The executable store.
//!
//! `Journal` keeps the records and the balances in plain vectors; its view is
//! the `JournalView` model, and every operation is proved to follow the
//! corresponding transition function of `model` exactly.

use vstd::prelude::*;
use crate::address::{Pubkey, address_of, derive_address, bytes_eq};
use crate::model::{
    has_record,
    EntryView, JournalView, JournalError, bal, view_wf, spec_fund, spec_create, spec_update,
    spec_delete, MAX_TITLE_LEN, MAX_MESSAGE_LEN, STORAGE_DEPOSIT,
};

verus! {

/// A stored record: the identity that created it, the title it is addressed
/// by, and the message it carries.
pub struct JournalEntryState {
    pub owner: Pubkey,
    pub title: Vec<u8>,
    pub message: Vec<u8>,
}

impl View for JournalEntryState {
    type V = EntryView;

    open spec fn view(&self) -> EntryView {
        EntryView { owner: self.owner, title: self.title@, message: self.message@ }
    }
}

/// One identity's balance.
struct BalanceSlot {
    key: Pubkey,
    lamports: u64,
}

/// The address a stored record is filed under.
spec fn entry_addr(e: JournalEntryState) -> Seq<u8> {
    address_of(e.owner, e.title@)
}

/// The records of a sequence of stored entries, as a map keyed by address.
spec fn records_of(s: Seq<JournalEntryState>) -> Map<Seq<u8>, EntryView>
    decreases s.len(),
{
    if s.len() == 0 {
        Map::empty()
    } else {
        records_of(s.drop_last()).insert(entry_addr(s.last()), s.last()@)
    }
}

/// The balances of a sequence of slots, as a map keyed by identity.
spec fn balances_of(s: Seq<BalanceSlot>) -> Map<Pubkey, nat>
    decreases s.len(),
{
    if s.len() == 0 {
        Map::empty()
    } else {
        balances_of(s.drop_last()).insert(s.last().key, s.last().lamports as nat)
    }
}

/// No two stored entries share an address.
spec fn unique_addrs(s: Seq<JournalEntryState>) -> bool {
    forall|i: int, j: int|
        0 <= i < j < s.len() ==> entry_addr(s[i]) != entry_addr(s[j])
}

/// No two balance slots share a key.
spec fn unique_keys(s: Seq<BalanceSlot>) -> bool {
    forall|i: int, j: int| 0 <= i < j < s.len() ==> s[i].key != s[j].key
}

proof fn lemma_records_contains_at(s: Seq<JournalEntryState>, i: int)
    requires
        0 <= i < s.len(),
    ensures
        records_of(s).contains_key(entry_addr(s[i])),
    decreases s.len(),
{
    if i < s.len() - 1 {
        assert(s.drop_last()[i] == s[i]);
        lemma_records_contains_at(s.drop_last(), i);
    }
}

proof fn lemma_records_not_contains(s: Seq<JournalEntryState>, a: Seq<u8>)
    requires
        forall|i: int| 0 <= i < s.len() ==> entry_addr(s[i]) != a,
    ensures
        !records_of(s).contains_key(a),
    decreases s.len(),
{
    if s.len() > 0 {
        assert forall|i: int| 0 <= i < s.drop_last().len() implies entry_addr(
            s.drop_last()[i],
        ) != a by {
            assert(s.drop_last()[i] == s[i]);
        }
        lemma_records_not_contains(s.drop_last(), a);
        assert(entry_addr(s.last()) != a);
    }
}

proof fn lemma_records_keys(s: Seq<JournalEntryState>)
    ensures
        forall|a: Seq<u8>| #[trigger] records_of(s).contains_key(a)
            ==> exists|i: int| 0 <= i < s.len() && entry_addr(s[i]) == a,
    decreases s.len(),
{
    if s.len() > 0 {
        lemma_records_keys(s.drop_last());
        assert forall|a: Seq<u8>| #[trigger] records_of(s).contains_key(a) implies exists|i: int|
            0 <= i < s.len() && entry_addr(s[i]) == a by {
            if a == entry_addr(s.last()) {
                assert(entry_addr(s[s.len() - 1]) == a);
            } else {
                assert(records_of(s.drop_last()).contains_key(a));
                let i = choose|i: int|
                    0 <= i < s.drop_last().len() && entry_addr(s.drop_last()[i]) == a;
                assert(s.drop_last()[i] == s[i]);
                assert(entry_addr(s[i]) == a);
            }
        }
    }
}

proof fn lemma_records_at(s: Seq<JournalEntryState>, i: int)
    requires
        unique_addrs(s),
        0 <= i < s.len(),
    ensures
        records_of(s).contains_key(entry_addr(s[i])),
        records_of(s)[entry_addr(s[i])] == s[i]@,
    decreases s.len(),
{
    if i == s.len() - 1 {
    } else {
        assert(entry_addr(s[i]) != entry_addr(s[s.len() - 1]));
        assert forall|k: int, l: int| 0 <= k < l < s.drop_last().len() implies entry_addr(
            s.drop_last()[k],
        ) != entry_addr(s.drop_last()[l]) by {
            assert(s.drop_last()[k] == s[k]);
            assert(s.drop_last()[l] == s[l]);
        }
        assert(s.drop_last()[i] == s[i]);
        lemma_records_at(s.drop_last(), i);
    }
}

proof fn lemma_unique_addrs_drop_last(s: Seq<JournalEntryState>)
    requires
        unique_addrs(s),
        s.len() > 0,
    ensures
        unique_addrs(s.drop_last()),
{
    assert forall|k: int, l: int| 0 <= k < l < s.drop_last().len() implies entry_addr(
        s.drop_last()[k],
    ) != entry_addr(s.drop_last()[l]) by {
        assert(s.drop_last()[k] == s[k]);
        assert(s.drop_last()[l] == s[l]);
    }
}

proof fn lemma_records_remove(s: Seq<JournalEntryState>, i: int)
    requires
        unique_addrs(s),
        0 <= i < s.len(),
    ensures
        records_of(s.remove(i)) == records_of(s).remove(entry_addr(s[i])),
    decreases s.len(),
{
    s.remove_ensures(i);
    let a = entry_addr(s[i]);
    if i == s.len() - 1 {
        assert(s.remove(i) =~= s.drop_last());
        assert forall|j: int| 0 <= j < s.drop_last().len() implies entry_addr(
            s.drop_last()[j],
        ) != a by {
            assert(s.drop_last()[j] == s[j]);
        }
        lemma_records_not_contains(s.drop_last(), a);
        assert(records_of(s).remove(a) =~= records_of(s.drop_last()));
    } else {
        let s0 = s.drop_last();
        let r = s.remove(i);
        let al = entry_addr(s.last());
        assert(a != al);
        lemma_unique_addrs_drop_last(s);
        s0.remove_ensures(i);
        assert(r[r.len() - 1] == s[s.len() - 1]);
        assert(r.drop_last() =~= s0.remove(i));
        lemma_records_remove(s0, i);
        assert(records_of(r) == records_of(s0).remove(a).insert(al, s.last()@));
        assert(records_of(s0).remove(a).insert(al, s.last()@) =~= records_of(s0).insert(
            al,
            s.last()@,
        ).remove(a));
    }
}

proof fn lemma_balances_not_contains(s: Seq<BalanceSlot>, k: Pubkey)
    requires
        forall|i: int| 0 <= i < s.len() ==> s[i].key != k,
    ensures
        !balances_of(s).contains_key(k),
    decreases s.len(),
{
    if s.len() > 0 {
        assert forall|i: int| 0 <= i < s.drop_last().len() implies s.drop_last()[i].key != k by {
            assert(s.drop_last()[i] == s[i]);
        }
        lemma_balances_not_contains(s.drop_last(), k);
        assert(s.last().key != k);
    }
}

proof fn lemma_balances_at(s: Seq<BalanceSlot>, i: int)
    requires
        unique_keys(s),
        0 <= i < s.len(),
    ensures
        balances_of(s).contains_key(s[i].key),
        balances_of(s)[s[i].key] == s[i].lamports as nat,
    decreases s.len(),
{
    if i == s.len() - 1 {
    } else {
        assert(s[i].key != s[s.len() - 1].key);
        assert forall|k: int, l: int| 0 <= k < l < s.drop_last().len() implies s.drop_last()[
            k
        ].key != s.drop_last()[l].key by {
            assert(s.drop_last()[k] == s[k]);
            assert(s.drop_last()[l] == s[l]);
        }
        assert(s.drop_last()[i] == s[i]);
        lemma_balances_at(s.drop_last(), i);
    }
}

proof fn lemma_unique_keys_drop_last(s: Seq<BalanceSlot>)
    requires
        unique_keys(s),
        s.len() > 0,
    ensures
        unique_keys(s.drop_last()),
{
    assert forall|k: int, l: int| 0 <= k < l < s.drop_last().len() implies s.drop_last()[
        k
    ].key != s.drop_last()[l].key by {
        assert(s.drop_last()[k] == s[k]);
        assert(s.drop_last()[l] == s[l]);
    }
}

proof fn lemma_balances_remove(s: Seq<BalanceSlot>, i: int)
    requires
        unique_keys(s),
        0 <= i < s.len(),
    ensures
        balances_of(s.remove(i)) == balances_of(s).remove(s[i].key),
    decreases s.len(),
{
    s.remove_ensures(i);
    let k = s[i].key;
    if i == s.len() - 1 {
        assert(s.remove(i) =~= s.drop_last());
        assert forall|j: int| 0 <= j < s.drop_last().len() implies s.drop_last()[j].key != k by {
            assert(s.drop_last()[j] == s[j]);
        }
        lemma_balances_not_contains(s.drop_last(), k);
        assert(balances_of(s).remove(k) =~= balances_of(s.drop_last()));
    } else {
        let s0 = s.drop_last();
        let r = s.remove(i);
        let kl = s.last().key;
        assert(k != kl);
        lemma_unique_keys_drop_last(s);
        s0.remove_ensures(i);
        assert(r[r.len() - 1] == s[s.len() - 1]);
        assert(r.drop_last() =~= s0.remove(i));
        lemma_balances_remove(s0, i);
        assert(balances_of(r) == balances_of(s0).remove(k).insert(kl, s.last().lamports as nat));
        assert(balances_of(s0).remove(k).insert(kl, s.last().lamports as nat)
            =~= balances_of(s0).insert(kl, s.last().lamports as nat).remove(k));
    }
}

proof fn lemma_records_push(s: Seq<JournalEntryState>, e: JournalEntryState)
    ensures
        records_of(s.push(e)) == records_of(s).insert(entry_addr(e), e@),
{
    assert(s.push(e).drop_last() =~= s);
    assert(s.push(e).last() == e);
}

proof fn lemma_balances_push(s: Seq<BalanceSlot>, u: BalanceSlot)
    ensures
        balances_of(s.push(u)) == balances_of(s).insert(u.key, u.lamports as nat),
{
    assert(s.push(u).drop_last() =~= s);
    assert(s.push(u).last() == u);
}

proof fn lemma_unique_addrs_remove(s: Seq<JournalEntryState>, i: int)
    requires
        unique_addrs(s),
        0 <= i < s.len(),
    ensures
        unique_addrs(s.remove(i)),
        forall|j: int|
            0 <= j < s.remove(i).len() ==> #[trigger] entry_addr(s.remove(i)[j]) != entry_addr(
                s[i],
            ),
{
    s.remove_ensures(i);
    let r = s.remove(i);
    assert forall|k: int, l: int| 0 <= k < l < r.len() implies entry_addr(r[k]) != entry_addr(
        r[l],
    ) by {
        assert(r[k] == if k < i { s[k] } else { s[k + 1] });
        assert(r[l] == if l < i { s[l] } else { s[l + 1] });
    }
    assert forall|j: int| 0 <= j < r.len() implies #[trigger] entry_addr(r[j]) != entry_addr(
        s[i],
    ) by {
        assert(r[j] == if j < i { s[j] } else { s[j + 1] });
    }
}

proof fn lemma_unique_addrs_after_replace(s: Seq<JournalEntryState>, i: int, e: JournalEntryState)
    requires
        unique_addrs(s),
        0 <= i < s.len(),
        entry_addr(e) == entry_addr(s[i]),
    ensures
        unique_addrs(s.remove(i).push(e)),
{
    lemma_unique_addrs_remove(s, i);
    let r = s.remove(i);
    assert forall|k: int, l: int| 0 <= k < l < r.push(e).len() implies entry_addr(
        r.push(e)[k],
    ) != entry_addr(r.push(e)[l]) by {
        assert(r.push(e)[k] == r[k]);
        if l == r.len() {
            assert(r.push(e)[l] == e);
        } else {
            assert(r.push(e)[l] == r[l]);
        }
    }
}

proof fn lemma_unique_addrs_push_fresh(s: Seq<JournalEntryState>, e: JournalEntryState)
    requires
        unique_addrs(s),
        forall|j: int| 0 <= j < s.len() ==> entry_addr(s[j]) != entry_addr(e),
    ensures
        unique_addrs(s.push(e)),
{
    assert forall|k: int, l: int| 0 <= k < l < s.push(e).len() implies entry_addr(
        s.push(e)[k],
    ) != entry_addr(s.push(e)[l]) by {
        assert(s.push(e)[k] == s[k]);
        if l == s.len() {
            assert(s.push(e)[l] == e);
        } else {
            assert(s.push(e)[l] == s[l]);
        }
    }
}

proof fn lemma_unique_keys_remove(s: Seq<BalanceSlot>, i: int)
    requires
        unique_keys(s),
        0 <= i < s.len(),
    ensures
        unique_keys(s.remove(i)),
        forall|j: int| 0 <= j < s.remove(i).len() ==> (#[trigger] s.remove(i)[j]).key != s[i].key,
{
    s.remove_ensures(i);
    let r = s.remove(i);
    assert forall|k: int, l: int| 0 <= k < l < r.len() implies r[k].key != r[l].key by {
        assert(r[k] == if k < i { s[k] } else { s[k + 1] });
        assert(r[l] == if l < i { s[l] } else { s[l + 1] });
    }
    assert forall|j: int| 0 <= j < r.len() implies (#[trigger] r[j]).key != s[i].key by {
        assert(r[j] == if j < i { s[j] } else { s[j + 1] });
    }
}

proof fn lemma_unique_keys_after_replace(s: Seq<BalanceSlot>, i: int, u: BalanceSlot)
    requires
        unique_keys(s),
        0 <= i < s.len(),
        u.key == s[i].key,
    ensures
        unique_keys(s.remove(i).push(u)),
{
    lemma_unique_keys_remove(s, i);
    let r = s.remove(i);
    assert forall|k: int, l: int| 0 <= k < l < r.push(u).len() implies r.push(u)[k].key != r.push(
        u,
    )[l].key by {
        assert(r.push(u)[k] == r[k]);
        if l == r.len() {
            assert(r.push(u)[l] == u);
        } else {
            assert(r.push(u)[l] == r[l]);
        }
    }
}

proof fn lemma_unique_keys_push_fresh(s: Seq<BalanceSlot>, u: BalanceSlot)
    requires
        unique_keys(s),
        forall|j: int| 0 <= j < s.len() ==> (#[trigger] s[j]).key != u.key,
    ensures
        unique_keys(s.push(u)),
{
    assert forall|k: int, l: int| 0 <= k < l < s.push(u).len() implies s.push(u)[k].key != s.push(
        u,
    )[l].key by {
        assert(s.push(u)[k] == s[k]);
        if l == s.len() {
            assert(s.push(u)[l] == u);
        } else {
            assert(s.push(u)[l] == s[l]);
        }
    }
}

/// A copy of a byte string.
fn clone_bytes(v: &Vec<u8>) -> (r: Vec<u8>)
    ensures
        r@ == v@,
{
    let r = v.clone();
    proof {
        assert(r@ =~= v@);
    }
    r
}

/// The store: every record, filed under its derived address, and every
/// funded identity's balance.
pub struct Journal {
    entries: Vec<JournalEntryState>,
    balances: Vec<BalanceSlot>,
}

impl View for Journal {
    type V = JournalView;

    closed spec fn view(&self) -> JournalView {
        JournalView { records: records_of(self.entries@), balances: balances_of(self.balances@) }
    }
}

impl Journal {
    /// The store's internal invariant: addresses and balance keys are
    /// unique, and every stored field respects the layout bounds.
    pub closed spec fn wf(self) -> bool {
        &&& unique_addrs(self.entries@)
        &&& unique_keys(self.balances@)
        &&& forall|i: int| 0 <= i < self.entries@.len() ==> {
            &&& (#[trigger] self.entries@[i]).title@.len() <= MAX_TITLE_LEN
            &&& self.entries@[i].message@.len() <= MAX_MESSAGE_LEN
        }
    }

    /// A well-formed store presents a well-formed state.
    pub proof fn lemma_wf_view(self)
        requires
            self.wf(),
        ensures
            view_wf(self@),
    {
        lemma_records_keys(self.entries@);
        assert forall|a: Seq<u8>| #[trigger] self@.records.contains_key(a) implies {
            &&& a == address_of(self@.records[a].owner, self@.records[a].title)
            &&& self@.records[a].title.len() <= MAX_TITLE_LEN
            &&& self@.records[a].message.len() <= MAX_MESSAGE_LEN
        } by {
            let i = choose|i: int|
                0 <= i < self.entries@.len() && entry_addr(self.entries@[i]) == a;
            lemma_records_at(self.entries@, i);
        }
    }

    /// An empty store: no records, no balances.
    pub fn new() -> (j: Journal)
        ensures
            j.wf(),
            j@ == (JournalView { records: Map::empty(), balances: Map::empty() }),
    {
        let j = Journal { entries: Vec::new(), balances: Vec::new() };
        proof {
            assert(j@ =~~= (JournalView { records: Map::empty(), balances: Map::empty() }));
        }
        j
    }

    /// The index of the record stored at the given address, if any.
    fn find_entry(&self, addr: &Vec<u8>) -> (r: Option<usize>)
        ensures
            match r {
                Some(i) => i < self.entries@.len() && entry_addr(self.entries@[i as int])
                    == addr@,
                None => forall|i: int|
                    0 <= i < self.entries@.len() ==> entry_addr(self.entries@[i]) != addr@,
            },
    {
        let mut i: usize = 0;
        while i < self.entries.len()
            invariant
                i <= self.entries@.len(),
                forall|j: int| 0 <= j < i ==> entry_addr(self.entries@[j]) != addr@,
            decreases self.entries@.len() - i,
        {
            let e = &self.entries[i];
            let ea = derive_address(e.owner, &e.title);
            if bytes_eq(&ea, addr) {
                return Some(i);
            }
            i = i + 1;
        }
        None
    }

    /// The index of an identity's balance slot, if it was ever funded.
    fn find_balance(&self, who: Pubkey) -> (r: Option<usize>)
        ensures
            match r {
                Some(i) => i < self.balances@.len() && self.balances@[i as int].key == who,
                None => forall|i: int|
                    0 <= i < self.balances@.len() ==> (#[trigger] self.balances@[i]).key != who,
            },
    {
        let mut i: usize = 0;
        while i < self.balances.len()
            invariant
                i <= self.balances@.len(),
                forall|j: int| 0 <= j < i ==> (#[trigger] self.balances@[j]).key != who,
            decreases self.balances@.len() - i,
        {
            let s = &self.balances[i];
            if s.key == who {
                return Some(i);
            }
            i = i + 1;
        }
        None
    }

    /// The balance an identity currently holds.
    pub fn balance(&self, who: Pubkey) -> (r: u64)
        requires
            self.wf(),
        ensures
            r as nat == bal(self@, who),
    {
        match self.find_balance(who) {
            Some(i) => {
                proof {
                    lemma_balances_at(self.balances@, i as int);
                }
                self.balances[i].lamports
            }
            None => {
                proof {
                    lemma_balances_not_contains(self.balances@, who);
                }
                0
            }
        }
    }

    /// Adds funds to an identity's balance.
    pub fn fund(&mut self, who: Pubkey, amount: u64)
        requires
            old(self).wf(),
            bal(old(self)@, who) + amount <= u64::MAX,
        ensures
            final(self).wf(),
            final(self)@ == spec_fund(old(self)@, who, amount),
    {
        let ghost s0 = self.balances@;
        match self.find_balance(who) {
            Some(i) => {
                proof {
                    lemma_balances_at(s0, i as int);
                    lemma_balances_remove(s0, i as int);
                }
                let slot = self.balances.remove(i);
                let updated = BalanceSlot { key: who, lamports: slot.lamports + amount };
                proof {
                    lemma_unique_keys_after_replace(s0, i as int, updated);
                    lemma_balances_push(s0.remove(i as int), updated);
                }
                self.balances.push(updated);
                proof {
                    assert(balances_of(s0).remove(who).insert(who, updated.lamports as nat)
                        =~= balances_of(s0).insert(who, updated.lamports as nat));
                    assert(self@ =~~= spec_fund(old(self)@, who, amount));
                }
            }
            None => {
                proof {
                    lemma_balances_not_contains(s0, who);
                }
                let fresh = BalanceSlot { key: who, lamports: amount };
                proof {
                    lemma_unique_keys_push_fresh(s0, fresh);
                    lemma_balances_push(s0, fresh);
                }
                self.balances.push(fresh);
                proof {
                    assert(self@ =~~= spec_fund(old(self)@, who, amount));
                }
            }
        }
    }

    /// Creates the caller's record for the given title: the caller becomes
    /// its owner and pays the storage deposit.  Fails with
    /// `AddressCollision` if the derived address is occupied, and with
    /// `InsufficientFunds` if the caller cannot cover the deposit; a failed
    /// create leaves the store unchanged.
    pub fn create_journal_entry(
        &mut self,
        signer: Pubkey,
        title: &Vec<u8>,
        message: &Vec<u8>,
    ) -> (r: Result<(), JournalError>)
        requires
            old(self).wf(),
            title@.len() <= MAX_TITLE_LEN,
            message@.len() <= MAX_MESSAGE_LEN,
        ensures
            final(self).wf(),
            final(self)@ == spec_create(old(self)@, signer, title@, message@).0,
            r == spec_create(old(self)@, signer, title@, message@).1,
    {
        let ghost e0 = self.entries@;
        let ghost s0 = self.balances@;
        let addr = derive_address(signer, title);
        match self.find_entry(&addr) {
            Some(i) => {
                proof {
                    lemma_records_contains_at(e0, i as int);
                }
                Err(JournalError::AddressCollision)
            }
            None => {
                proof {
                    lemma_records_not_contains(e0, addr@);
                }
                match self.find_balance(signer) {
                    None => {
                        proof {
                            lemma_balances_not_contains(s0, signer);
                        }
                        Err(JournalError::InsufficientFunds)
                    }
                    Some(bi) => {
                        proof {
                            lemma_balances_at(s0, bi as int);
                        }
                        let current: u64 = self.balances[bi].lamports;
                        if current < STORAGE_DEPOSIT {
                            Err(JournalError::InsufficientFunds)
                        } else {
                            proof {
                                lemma_balances_remove(s0, bi as int);
                            }
                            let slot = self.balances.remove(bi);
                            let updated = BalanceSlot {
                                key: signer,
                                lamports: slot.lamports - STORAGE_DEPOSIT,
                            };
                            proof {
                                lemma_unique_keys_after_replace(s0, bi as int, updated);
                                lemma_balances_push(s0.remove(bi as int), updated);
                            }
                            self.balances.push(updated);
                            let entry = JournalEntryState {
                                owner: signer,
                                title: clone_bytes(title),
                                message: clone_bytes(message),
                            };
                            proof {
                                lemma_unique_addrs_push_fresh(e0, entry);
                                lemma_records_push(e0, entry);
                            }
                            self.entries.push(entry);
                            proof {
                                assert(balances_of(s0).remove(signer).insert(
                                    signer,
                                    updated.lamports as nat,
                                ) =~= balances_of(s0).insert(signer, updated.lamports as nat));
                                assert(self@ =~~= spec_create(
                                    old(self)@,
                                    signer,
                                    title@,
                                    message@,
                                ).0);
                            }
                            Ok(())
                        }
                    }
                }
            }
        }
    }

    /// Overwrites the message of the record at the address derived from
    /// (owner, title); the title only re-derives the address, and owner and
    /// title storage are left untouched.  Fails with `NotFound` if no record
    /// sits there, and with `Unauthorized` if the caller is not the stored
    /// owner; a failed update leaves the store unchanged.
    pub fn update_journal_entry(
        &mut self,
        signer: Pubkey,
        owner: Pubkey,
        title: &Vec<u8>,
        message: &Vec<u8>,
    ) -> (r: Result<(), JournalError>)
        requires
            old(self).wf(),
            title@.len() <= MAX_TITLE_LEN,
            message@.len() <= MAX_MESSAGE_LEN,
        ensures
            final(self).wf(),
            final(self)@ == spec_update(old(self)@, signer, owner, title@, message@).0,
            r == spec_update(old(self)@, signer, owner, title@, message@).1,
    {
        let ghost e0 = self.entries@;
        let addr = derive_address(owner, title);
        match self.find_entry(&addr) {
            None => {
                proof {
                    lemma_records_not_contains(e0, addr@);
                }
                Err(JournalError::NotFound)
            }
            Some(i) => {
                proof {
                    lemma_records_at(e0, i as int);
                }
                let authorized = {
                    let e = &self.entries[i];
                    e.owner == signer
                };
                if !authorized {
                    Err(JournalError::Unauthorized)
                } else {
                    proof {
                        lemma_records_remove(e0, i as int);
                    }
                    let mut e = self.entries.remove(i);
                    e.message = clone_bytes(message);
                    proof {
                        lemma_unique_addrs_after_replace(e0, i as int, e);
                        lemma_records_push(e0.remove(i as int), e);
                    }
                    self.entries.push(e);
                    proof {
                        let a = addr@;
                        let updated_view = self.entries@.last()@;
                        assert(records_of(e0).remove(a).insert(a, updated_view)
                            =~= records_of(e0).insert(a, updated_view));
                        assert(self@ =~~= spec_update(old(self)@, signer, owner, title@,
                            message@).0);
                    }
                    Ok(())
                }
            }
        }
    }

    /// Deletes the record at the address derived from (owner, title),
    /// reclaiming its storage and returning the held deposit to the stored
    /// owner.  Fails with `NotFound` if no record sits there, and with
    /// `Unauthorized` if the caller is not the stored owner; a failed delete
    /// leaves the store unchanged.
    pub fn delete_journal_entry(
        &mut self,
        signer: Pubkey,
        owner: Pubkey,
        title: &Vec<u8>,
    ) -> (r: Result<(), JournalError>)
        requires
            old(self).wf(),
            title@.len() <= MAX_TITLE_LEN,
            (has_record(old(self)@, owner, title@) && old(self)@.records[address_of(
                owner,
                title@,
            )].owner == signer) ==> bal(old(self)@, signer) + STORAGE_DEPOSIT <= u64::MAX,
        ensures
            final(self).wf(),
            final(self)@ == spec_delete(old(self)@, signer, owner, title@).0,
            r == spec_delete(old(self)@, signer, owner, title@).1,
    {
        let ghost e0 = self.entries@;
        let ghost s0 = self.balances@;
        let addr = derive_address(owner, title);
        match self.find_entry(&addr) {
            None => {
                proof {
                    lemma_records_not_contains(e0, addr@);
                }
                Err(JournalError::NotFound)
            }
            Some(i) => {
                proof {
                    lemma_records_at(e0, i as int);
                }
                let authorized = {
                    let e = &self.entries[i];
                    e.owner == signer
                };
                if !authorized {
                    Err(JournalError::Unauthorized)
                } else {
                    proof {
                        lemma_records_remove(e0, i as int);
                        lemma_unique_addrs_remove(e0, i as int);
                    }
                    let removed = self.entries.remove(i);
                    match self.find_balance(removed.owner) {
                        Some(bi) => {
                            proof {
                                lemma_balances_at(s0, bi as int);
                                lemma_balances_remove(s0, bi as int);
                            }
                            let slot = self.balances.remove(bi);
                            let updated = BalanceSlot {
                                key: removed.owner,
                                lamports: slot.lamports + STORAGE_DEPOSIT,
                            };
                            proof {
                                lemma_unique_keys_after_replace(s0, bi as int, updated);
                                lemma_balances_push(s0.remove(bi as int), updated);
                            }
                            self.balances.push(updated);
                            proof {
                                assert(balances_of(s0).remove(removed.owner).insert(
                                    removed.owner,
                                    updated.lamports as nat,
                                ) =~= balances_of(s0).insert(
                                    removed.owner,
                                    updated.lamports as nat,
                                ));
                                assert(self@ =~~= spec_delete(old(self)@, signer, owner,
                                    title@).0);
                            }
                            Ok(())
                        }
                        None => {
                            proof {
                                lemma_balances_not_contains(s0, removed.owner);
                            }
                            let fresh = BalanceSlot {
                                key: removed.owner,
                                lamports: STORAGE_DEPOSIT,
                            };
                            proof {
                                lemma_unique_keys_push_fresh(s0, fresh);
                                lemma_balances_push(s0, fresh);
                            }
                            self.balances.push(fresh);
                            proof {
                                assert(self@ =~~= spec_delete(old(self)@, signer, owner,
                                    title@).0);
                            }
                            Ok(())
                        }
                    }
                }
            }
        }
    }

    /// The record stored for (owner, title), if any.
    pub fn get_journal_entry(&self, owner: Pubkey, title: &Vec<u8>) -> (r: Option<
        &JournalEntryState,
    >)
        requires
            self.wf(),
        ensures
            match r {
                Some(e) => has_record(self@, owner, title@) && e@ == self@.records[address_of(
                    owner,
                    title@,
                )],
                None => !has_record(self@, owner, title@),
            },
    {
        let addr = derive_address(owner, title);
        match self.find_entry(&addr) {
            Some(i) => {
                proof {
                    lemma_records_at(self.entries@, i as int);
                }
                Some(&self.entries[i])
            }
            None => {
                proof {
                    lemma_records_not_contains(self.entries@, addr@);
                }
                None
            }
        }
    }
}

} // verus!
