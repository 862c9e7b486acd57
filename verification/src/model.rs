//! The mathematical model of the store.
//!
//! A state is a map from derived addresses to records together with a map
//! from identities to their balances.  Each operation is a pure transition
//! function on such states; the executable store is proved to follow these
//! transitions exactly, and the laws in `laws` are proved about them.

use vstd::prelude::*;
use crate::address::{Pubkey, address_of};

verus! {

/// Size of the leading type tag of a stored record, in bytes.
pub const DISCRIMINATOR_SPACE: u64 = 8;

/// Size of the stored owner key, in bytes.
pub const OWNER_SPACE: u64 = 32;

/// Size of the length prefix that precedes each text field, in bytes.
pub const LEN_PREFIX_SPACE: u64 = 4;

/// Upper bound on a title, in bytes.
pub const MAX_TITLE_LEN: usize = 50;

/// Upper bound on a message, in bytes.
pub const MAX_MESSAGE_LEN: usize = 500;

/// Size of the fixed record layout: type tag, owner key, then each text
/// field at its full bound behind a length prefix.
pub const RECORD_SPACE: u64 = DISCRIMINATOR_SPACE + OWNER_SPACE + LEN_PREFIX_SPACE + 50
    + LEN_PREFIX_SPACE + 500;

/// The deposit held against a record's storage: one balance unit for each
/// byte of the fixed record layout, returned to the owner at deletion.
pub const STORAGE_DEPOSIT: u64 = RECORD_SPACE;

/// Why an operation was refused.  Every failure leaves the store unchanged.
#[derive(Clone, Copy, PartialEq, Eq, Structural, Debug)]
pub enum JournalError {
    /// A create found a record already stored at the derived address.
    AddressCollision,
    /// An update or delete found no record at the derived address.
    NotFound,
    /// The caller is not the stored owner of the addressed record.
    Unauthorized,
    /// The caller's balance cannot cover the storage deposit.
    InsufficientFunds,
}

/// A stored record, as the model sees it.
#[verifier::ext_equal]
pub struct EntryView {
    pub owner: Pubkey,
    pub title: Seq<u8>,
    pub message: Seq<u8>,
}

/// A state of the store: the records, keyed by derived address, and the
/// balance of each identity that has ever been funded.
#[verifier::ext_equal]
pub struct JournalView {
    pub records: Map<Seq<u8>, EntryView>,
    pub balances: Map<Pubkey, nat>,
}

/// The balance of an identity; an identity never funded holds nothing.
pub open spec fn bal(v: JournalView, who: Pubkey) -> nat {
    if v.balances.dom().contains(who) {
        v.balances[who]
    } else {
        0
    }
}

/// Whether a record exists for (owner, title).
pub open spec fn has_record(v: JournalView, owner: Pubkey, title: Seq<u8>) -> bool {
    v.records.contains_key(address_of(owner, title))
}

/// A well-formed state: every record sits exactly at the address derived
/// from its own (owner, title), and its fields respect the layout bounds.
pub open spec fn view_wf(v: JournalView) -> bool {
    forall|a: Seq<u8>| #[trigger] v.records.contains_key(a) ==> {
        &&& a == address_of(v.records[a].owner, v.records[a].title)
        &&& v.records[a].title.len() <= MAX_TITLE_LEN
        &&& v.records[a].message.len() <= MAX_MESSAGE_LEN
    }
}

/// Adding funds to an identity's balance.
pub open spec fn spec_fund(v: JournalView, who: Pubkey, amount: u64) -> JournalView {
    JournalView { balances: v.balances.insert(who, (bal(v, who) + amount) as nat), ..v }
}

/// Creating a record: the caller becomes its owner, pays the storage
/// deposit, and the record is stored at the derived address.  It fails with
/// `AddressCollision` if that address is already occupied, and with
/// `InsufficientFunds` if the caller cannot cover the deposit; a failed
/// create changes nothing.
pub open spec fn spec_create(
    v: JournalView,
    signer: Pubkey,
    title: Seq<u8>,
    message: Seq<u8>,
) -> (JournalView, Result<(), JournalError>) {
    let a = address_of(signer, title);
    if v.records.contains_key(a) {
        (v, Err(JournalError::AddressCollision))
    } else if bal(v, signer) < STORAGE_DEPOSIT {
        (v, Err(JournalError::InsufficientFunds))
    } else {
        (
            JournalView {
                records: v.records.insert(a, EntryView { owner: signer, title, message }),
                balances: v.balances.insert(signer, (bal(v, signer) - STORAGE_DEPOSIT) as nat),
            },
            Ok(()),
        )
    }
}

/// Updating a record's message.  The title only re-derives the address;
/// owner and title storage are left untouched.  It fails with `NotFound` if
/// no record sits at the derived address, and with `Unauthorized` if the
/// caller is not the stored owner; a failed update changes nothing.
pub open spec fn spec_update(
    v: JournalView,
    signer: Pubkey,
    owner: Pubkey,
    title: Seq<u8>,
    message: Seq<u8>,
) -> (JournalView, Result<(), JournalError>) {
    let a = address_of(owner, title);
    if !v.records.contains_key(a) {
        (v, Err(JournalError::NotFound))
    } else if v.records[a].owner != signer {
        (v, Err(JournalError::Unauthorized))
    } else {
        (
            JournalView {
                records: v.records.insert(
                    a,
                    EntryView { owner: v.records[a].owner, title: v.records[a].title, message },
                ),
                ..v
            },
            Ok(()),
        )
    }
}

/// Deleting a record: its storage is reclaimed and the held deposit is
/// returned to the stored owner.  It fails with `NotFound` if no record sits
/// at the derived address, and with `Unauthorized` if the caller is not the
/// stored owner; a failed delete changes nothing.
pub open spec fn spec_delete(
    v: JournalView,
    signer: Pubkey,
    owner: Pubkey,
    title: Seq<u8>,
) -> (JournalView, Result<(), JournalError>) {
    let a = address_of(owner, title);
    if !v.records.contains_key(a) {
        (v, Err(JournalError::NotFound))
    } else if v.records[a].owner != signer {
        (v, Err(JournalError::Unauthorized))
    } else {
        (
            JournalView {
                records: v.records.remove(a),
                balances: v.balances.insert(
                    v.records[a].owner,
                    (bal(v, v.records[a].owner) + STORAGE_DEPOSIT) as nat,
                ),
            },
            Ok(()),
        )
    }
}

} // verus!
