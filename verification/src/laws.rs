//! Laws of the store, proved once and for all over the model transitions
//! that every executable operation is proved to follow.

use vstd::prelude::*;
use crate::address::{Pubkey, address_of, lemma_address_injective};
use crate::model::{
    EntryView, JournalView, JournalError, bal, has_record, view_wf, spec_create, spec_update,
    spec_delete, STORAGE_DEPOSIT, MAX_TITLE_LEN, MAX_MESSAGE_LEN,
};

verus! {

/// Law: distinct (owner, title) pairs always derive distinct addresses, so
/// one owner can hold at most one record per title while different owners
/// may reuse a title freely.
pub proof fn lemma_distinct_pairs_distinct_addresses(
    o1: Pubkey,
    t1: Seq<u8>,
    o2: Pubkey,
    t2: Seq<u8>,
)
    requires
        o1 != o2 || t1 != t2,
    ensures
        address_of(o1, t1) != address_of(o2, t2),
{
    if address_of(o1, t1) == address_of(o2, t2) {
        lemma_address_injective(o1, t1, o2, t2);
    }
}

/// Law: a create keeps the state well formed — every record still sits at
/// the address derived from its own (owner, title), within the layout
/// bounds.
pub proof fn lemma_create_preserves_wf(
    v: JournalView,
    signer: Pubkey,
    title: Seq<u8>,
    message: Seq<u8>,
)
    requires
        view_wf(v),
        title.len() <= MAX_TITLE_LEN,
        message.len() <= MAX_MESSAGE_LEN,
    ensures
        view_wf(spec_create(v, signer, title, message).0),
{
}

/// Law: an update keeps the state well formed.
pub proof fn lemma_update_preserves_wf(
    v: JournalView,
    signer: Pubkey,
    owner: Pubkey,
    title: Seq<u8>,
    message: Seq<u8>,
)
    requires
        view_wf(v),
        message.len() <= MAX_MESSAGE_LEN,
    ensures
        view_wf(spec_update(v, signer, owner, title, message).0),
{
}

/// Law: a delete keeps the state well formed.
pub proof fn lemma_delete_preserves_wf(
    v: JournalView,
    signer: Pubkey,
    owner: Pubkey,
    title: Seq<u8>,
)
    requires
        view_wf(v),
    ensures
        view_wf(spec_delete(v, signer, owner, title).0),
{
}

/// Law: a create touches nothing beyond its own record and the caller's
/// balance — every other address and every other identity's funds are left
/// exactly as they were, whether the create succeeded or failed.
pub proof fn lemma_create_frame(
    v: JournalView,
    signer: Pubkey,
    title: Seq<u8>,
    message: Seq<u8>,
)
    ensures
        ({
            let v1 = spec_create(v, signer, title, message).0;
            &&& forall|a: Seq<u8>|
                a != address_of(signer, title) ==> #[trigger] v1.records.contains_key(a)
                    == v.records.contains_key(a) && (v.records.contains_key(a)
                    ==> v1.records[a] == v.records[a])
            &&& forall|who: Pubkey| who != signer ==> bal(v1, who) == bal(v, who)
        }),
{
}

/// Law: an update touches nothing beyond its own record, and no balance at
/// all, whether it succeeded or failed.
pub proof fn lemma_update_frame(
    v: JournalView,
    signer: Pubkey,
    owner: Pubkey,
    title: Seq<u8>,
    message: Seq<u8>,
)
    ensures
        ({
            let v1 = spec_update(v, signer, owner, title, message).0;
            &&& forall|a: Seq<u8>|
                a != address_of(owner, title) ==> #[trigger] v1.records.contains_key(a)
                    == v.records.contains_key(a) && (v.records.contains_key(a)
                    ==> v1.records[a] == v.records[a])
            &&& forall|who: Pubkey| bal(v1, who) == bal(v, who)
        }),
{
}

/// Law: a delete touches nothing beyond its own record and the refunded
/// owner's balance, whether it succeeded or failed.
pub proof fn lemma_delete_frame(v: JournalView, signer: Pubkey, owner: Pubkey, title: Seq<u8>)
    requires
        view_wf(v),
    ensures
        ({
            let v1 = spec_delete(v, signer, owner, title).0;
            &&& forall|a: Seq<u8>|
                a != address_of(owner, title) ==> #[trigger] v1.records.contains_key(a)
                    == v.records.contains_key(a) && (v.records.contains_key(a)
                    ==> v1.records[a] == v.records[a])
            &&& forall|who: Pubkey| who != owner ==> bal(v1, who) == bal(v, who)
        }),
{
    let a = address_of(owner, title);
    if v.records.contains_key(a) {
        lemma_address_injective(v.records[a].owner, v.records[a].title, owner, title);
    }
}

/// Law: titles are shared freely across owners — where one owner already
/// holds a record under a title, another owner with the deposit and no
/// record of their own under it can still create one, and the first record
/// comes through untouched.
pub proof fn lemma_two_owners_share_a_title(
    v: JournalView,
    o1: Pubkey,
    o2: Pubkey,
    title: Seq<u8>,
    message: Seq<u8>,
)
    requires
        o1 != o2,
        has_record(v, o1, title),
        !has_record(v, o2, title),
        bal(v, o2) >= STORAGE_DEPOSIT,
    ensures
        spec_create(v, o2, title, message).1 == Ok::<(), JournalError>(()),
        ({
            let v1 = spec_create(v, o2, title, message).0;
            &&& has_record(v1, o1, title)
            &&& v1.records[address_of(o1, title)] == v.records[address_of(o1, title)]
        }),
{
    lemma_distinct_pairs_distinct_addresses(o1, title, o2, title);
}

/// Law: for a valid (owner, title, message) — no record yet under that pair
/// and the owner able to cover the deposit — create succeeds, and an
/// immediate read returns exactly that owner, title and message.
pub proof fn lemma_create_then_read(
    v: JournalView,
    signer: Pubkey,
    title: Seq<u8>,
    message: Seq<u8>,
)
    requires
        !has_record(v, signer, title),
        bal(v, signer) >= STORAGE_DEPOSIT,
    ensures
        spec_create(v, signer, title, message).1 == Ok::<(), JournalError>(()),
        has_record(spec_create(v, signer, title, message).0, signer, title),
        spec_create(v, signer, title, message).0.records[address_of(signer, title)]
            == (EntryView { owner: signer, title, message }),
{
}

/// Law: a second create under the same (owner, title) fails with
/// `AddressCollision`, and the failed attempt changes nothing.
pub proof fn lemma_create_twice_collision(
    v: JournalView,
    signer: Pubkey,
    title: Seq<u8>,
    m1: Seq<u8>,
    m2: Seq<u8>,
)
    requires
        spec_create(v, signer, title, m1).1 == Ok::<(), JournalError>(()),
    ensures
        ({
            let v1 = spec_create(v, signer, title, m1).0;
            &&& spec_create(v1, signer, title, m2).1 == Err::<(), JournalError>(
                JournalError::AddressCollision,
            )
            &&& spec_create(v1, signer, title, m2).0 == v1
        }),
{
}

/// Law: an update addressed to a nonexistent (owner, title) fails with
/// `NotFound` and changes nothing.
pub proof fn lemma_update_missing(
    v: JournalView,
    signer: Pubkey,
    owner: Pubkey,
    title: Seq<u8>,
    message: Seq<u8>,
)
    requires
        !has_record(v, owner, title),
    ensures
        spec_update(v, signer, owner, title, message).1 == Err::<(), JournalError>(
            JournalError::NotFound,
        ),
        spec_update(v, signer, owner, title, message).0 == v,
{
}

/// Law: updating a record just created under (owner, title) with a new
/// message succeeds, leaves owner and title unchanged, and sets the message.
pub proof fn lemma_update_after_create(
    v: JournalView,
    signer: Pubkey,
    title: Seq<u8>,
    m1: Seq<u8>,
    m2: Seq<u8>,
)
    requires
        spec_create(v, signer, title, m1).1 == Ok::<(), JournalError>(()),
    ensures
        ({
            let v1 = spec_create(v, signer, title, m1).0;
            let a = address_of(signer, title);
            &&& spec_update(v1, signer, signer, title, m2).1 == Ok::<(), JournalError>(())
            &&& spec_update(v1, signer, signer, title, m2).0.records[a].owner == signer
            &&& spec_update(v1, signer, signer, title, m2).0.records[a].title == title
            &&& spec_update(v1, signer, signer, title, m2).0.records[a].message == m2
        }),
{
}

/// Law: a delete addressed to a nonexistent (owner, title) fails with
/// `NotFound` and changes nothing.
pub proof fn lemma_delete_missing(v: JournalView, signer: Pubkey, owner: Pubkey, title: Seq<u8>)
    requires
        !has_record(v, owner, title),
    ensures
        spec_delete(v, signer, owner, title).1 == Err::<(), JournalError>(JournalError::NotFound),
        spec_delete(v, signer, owner, title).0 == v,
{
}

/// Law: a delete of an existing record by a caller other than its owner
/// fails with `Unauthorized` and changes nothing.
pub proof fn lemma_delete_unauthorized(
    v: JournalView,
    signer: Pubkey,
    owner: Pubkey,
    title: Seq<u8>,
)
    requires
        view_wf(v),
        has_record(v, owner, title),
        signer != owner,
    ensures
        spec_delete(v, signer, owner, title).1 == Err::<(), JournalError>(
            JournalError::Unauthorized,
        ),
        spec_delete(v, signer, owner, title).0 == v,
{
    let a = address_of(owner, title);
    lemma_address_injective(v.records[a].owner, v.records[a].title, owner, title);
}

/// Law: after a record is deleted by its owner, a create under the same
/// (owner, title) succeeds again — the address is reusable once reclaimed,
/// and the refunded deposit covers the new one.
pub proof fn lemma_delete_then_create(
    v: JournalView,
    owner: Pubkey,
    title: Seq<u8>,
    message: Seq<u8>,
)
    requires
        spec_delete(v, owner, owner, title).1 == Ok::<(), JournalError>(()),
    ensures
        ({
            let v1 = spec_delete(v, owner, owner, title).0;
            &&& spec_create(v1, owner, title, message).1 == Ok::<(), JournalError>(())
            &&& has_record(spec_create(v1, owner, title, message).0, owner, title)
        }),
{
    let a = address_of(owner, title);
    let v1 = spec_delete(v, owner, owner, title).0;
    assert(!v1.records.contains_key(a));
    assert(bal(v1, owner) >= STORAGE_DEPOSIT);
}

} // verus!
