use crudapp::address::{bytes_eq, derive_address, Pubkey};
use crudapp::journal::Journal;
use crudapp::model::{JournalError, MAX_MESSAGE_LEN, MAX_TITLE_LEN, STORAGE_DEPOSIT};

fn key(id: u64) -> Pubkey {
    Pubkey { id }
}

#[test]
fn create_then_read() {
    let alice = key(1);
    let mut j = Journal::new();
    j.fund(alice, 1000);
    let title = b"day one".to_vec();
    let message = b"dear diary".to_vec();
    assert_eq!(j.create_journal_entry(alice, &title, &message), Ok(()));
    let e = j.get_journal_entry(alice, &title).expect("record should exist");
    assert_eq!(e.owner, alice);
    assert_eq!(e.title, title);
    assert_eq!(e.message, message);
}

#[test]
fn create_twice_fails_with_collision() {
    let alice = key(1);
    let mut j = Journal::new();
    j.fund(alice, 5000);
    let title = b"t".to_vec();
    let m1 = b"first".to_vec();
    let m2 = b"second".to_vec();
    assert_eq!(j.create_journal_entry(alice, &title, &m1), Ok(()));
    let balance_before = j.balance(alice);
    assert_eq!(
        j.create_journal_entry(alice, &title, &m2),
        Err(JournalError::AddressCollision)
    );
    // the failed attempt changed nothing
    assert_eq!(j.balance(alice), balance_before);
    let e = j.get_journal_entry(alice, &title).expect("record should exist");
    assert_eq!(e.message, m1);
}

#[test]
fn update_missing_fails_with_not_found() {
    let alice = key(1);
    let mut j = Journal::new();
    let title = b"absent".to_vec();
    let message = b"m".to_vec();
    assert_eq!(
        j.update_journal_entry(alice, alice, &title, &message),
        Err(JournalError::NotFound)
    );
}

#[test]
fn update_sets_message_and_keeps_identity() {
    let alice = key(7);
    let mut j = Journal::new();
    j.fund(alice, 1000);
    let title = b"trip".to_vec();
    let m1 = b"packing".to_vec();
    let m2 = b"arrived".to_vec();
    assert_eq!(j.create_journal_entry(alice, &title, &m1), Ok(()));
    assert_eq!(j.update_journal_entry(alice, alice, &title, &m2), Ok(()));
    let e = j.get_journal_entry(alice, &title).expect("record should exist");
    assert_eq!(e.owner, alice);
    assert_eq!(e.title, title);
    assert_eq!(e.message, m2);
}

#[test]
fn update_by_non_owner_fails_with_unauthorized() {
    let alice = key(1);
    let bob = key(2);
    let mut j = Journal::new();
    j.fund(alice, 1000);
    let title = b"mine".to_vec();
    let m1 = b"original".to_vec();
    let m2 = b"defaced".to_vec();
    assert_eq!(j.create_journal_entry(alice, &title, &m1), Ok(()));
    assert_eq!(
        j.update_journal_entry(bob, alice, &title, &m2),
        Err(JournalError::Unauthorized)
    );
    let e = j.get_journal_entry(alice, &title).expect("record should exist");
    assert_eq!(e.message, m1);
}

#[test]
fn delete_missing_fails_with_not_found() {
    let alice = key(1);
    let mut j = Journal::new();
    let title = b"absent".to_vec();
    assert_eq!(
        j.delete_journal_entry(alice, alice, &title),
        Err(JournalError::NotFound)
    );
}

#[test]
fn delete_by_non_owner_fails_with_unauthorized() {
    let alice = key(1);
    let bob = key(2);
    let mut j = Journal::new();
    j.fund(alice, 1000);
    let title = b"mine".to_vec();
    let message = b"keep out".to_vec();
    assert_eq!(j.create_journal_entry(alice, &title, &message), Ok(()));
    assert_eq!(
        j.delete_journal_entry(bob, alice, &title),
        Err(JournalError::Unauthorized)
    );
    assert!(j.get_journal_entry(alice, &title).is_some());
}

#[test]
fn delete_then_create_reuses_the_address() {
    let alice = key(1);
    let mut j = Journal::new();
    j.fund(alice, STORAGE_DEPOSIT);
    let title = b"again".to_vec();
    let m1 = b"first life".to_vec();
    let m2 = b"second life".to_vec();
    assert_eq!(j.create_journal_entry(alice, &title, &m1), Ok(()));
    assert_eq!(j.delete_journal_entry(alice, alice, &title), Ok(()));
    assert!(j.get_journal_entry(alice, &title).is_none());
    // the refunded deposit alone covers the new record
    assert_eq!(j.create_journal_entry(alice, &title, &m2), Ok(()));
    let e = j.get_journal_entry(alice, &title).expect("record should exist");
    assert_eq!(e.message, m2);
}

#[test]
fn create_without_funds_fails() {
    let alice = key(1);
    let mut j = Journal::new();
    let title = b"t".to_vec();
    let message = b"m".to_vec();
    // never funded
    assert_eq!(
        j.create_journal_entry(alice, &title, &message),
        Err(JournalError::InsufficientFunds)
    );
    // funded, but one unit short of the deposit
    j.fund(alice, STORAGE_DEPOSIT - 1);
    assert_eq!(
        j.create_journal_entry(alice, &title, &message),
        Err(JournalError::InsufficientFunds)
    );
    assert!(j.get_journal_entry(alice, &title).is_none());
}

#[test]
fn deposit_is_paid_and_refunded() {
    let alice = key(3);
    let mut j = Journal::new();
    j.fund(alice, 1000);
    assert_eq!(j.balance(alice), 1000);
    let title = b"ledger".to_vec();
    let message = b"entry".to_vec();
    assert_eq!(j.create_journal_entry(alice, &title, &message), Ok(()));
    assert_eq!(j.balance(alice), 1000 - STORAGE_DEPOSIT);
    assert_eq!(j.delete_journal_entry(alice, alice, &title), Ok(()));
    assert_eq!(j.balance(alice), 1000);
}

#[test]
fn two_owners_may_share_a_title() {
    let alice = key(1);
    let bob = key(2);
    let mut j = Journal::new();
    j.fund(alice, 1000);
    j.fund(bob, 1000);
    let title = b"monday".to_vec();
    let ma = b"alice wrote".to_vec();
    let mb = b"bob wrote".to_vec();
    assert_eq!(j.create_journal_entry(alice, &title, &ma), Ok(()));
    assert_eq!(j.create_journal_entry(bob, &title, &mb), Ok(()));
    assert_eq!(
        j.get_journal_entry(alice, &title).expect("alice's record").message,
        ma
    );
    assert_eq!(
        j.get_journal_entry(bob, &title).expect("bob's record").message,
        mb
    );
    // deleting bob's record leaves alice's untouched
    assert_eq!(j.delete_journal_entry(bob, bob, &title), Ok(()));
    assert!(j.get_journal_entry(bob, &title).is_none());
    assert!(j.get_journal_entry(alice, &title).is_some());
}

#[test]
fn one_owner_keeps_titles_apart() {
    let alice = key(1);
    let mut j = Journal::new();
    j.fund(alice, 5000);
    let t1 = b"monday".to_vec();
    let t2 = b"tuesday".to_vec();
    let m1 = b"rain".to_vec();
    let m2 = b"sun".to_vec();
    assert_eq!(j.create_journal_entry(alice, &t1, &m1), Ok(()));
    assert_eq!(j.create_journal_entry(alice, &t2, &m2), Ok(()));
    assert_eq!(j.get_journal_entry(alice, &t1).expect("first").message, m1);
    assert_eq!(j.get_journal_entry(alice, &t2).expect("second").message, m2);
}

#[test]
fn bounds_are_honoured_at_their_edges() {
    let alice = key(1);
    let mut j = Journal::new();
    j.fund(alice, 1000);
    let title = vec![b'x'; MAX_TITLE_LEN];
    let message = vec![b'y'; MAX_MESSAGE_LEN];
    assert_eq!(j.create_journal_entry(alice, &title, &message), Ok(()));
    let e = j.get_journal_entry(alice, &title).expect("record should exist");
    assert_eq!(e.title.len(), MAX_TITLE_LEN);
    assert_eq!(e.message.len(), MAX_MESSAGE_LEN);
}

#[test]
fn empty_title_and_message_are_valid() {
    let alice = key(1);
    let mut j = Journal::new();
    j.fund(alice, 1000);
    let title = Vec::new();
    let message = Vec::new();
    assert_eq!(j.create_journal_entry(alice, &title, &message), Ok(()));
    let e = j.get_journal_entry(alice, &title).expect("record should exist");
    assert!(e.title.is_empty());
    assert!(e.message.is_empty());
}

#[test]
fn derived_address_is_key_prefix_then_title() {
    let owner = key(0x0102030405060708);
    let title = vec![0xAAu8, 0xBBu8];
    let addr = derive_address(owner, &title);
    assert_eq!(addr, vec![1, 2, 3, 4, 5, 6, 7, 8, 0xAA, 0xBB]);
    // an empty title leaves the bare key prefix
    let bare = derive_address(owner, &Vec::new());
    assert_eq!(bare, vec![1, 2, 3, 4, 5, 6, 7, 8]);
}

#[test]
fn distinct_pairs_get_distinct_addresses() {
    let alice = key(1);
    let bob = key(2);
    let t1 = b"same".to_vec();
    let t2 = b"other".to_vec();
    assert_ne!(derive_address(alice, &t1), derive_address(bob, &t1));
    assert_ne!(derive_address(alice, &t1), derive_address(alice, &t2));
    assert_eq!(derive_address(alice, &t1), derive_address(alice, &t1));
}

#[test]
fn bytes_eq_compares_contents() {
    assert!(bytes_eq(&b"abc".to_vec(), &b"abc".to_vec()));
    assert!(!bytes_eq(&b"abc".to_vec(), &b"abd".to_vec()));
    assert!(!bytes_eq(&b"abc".to_vec(), &b"ab".to_vec()));
    assert!(bytes_eq(&Vec::new(), &Vec::new()));
}

#[test]
fn deposit_matches_the_fixed_record_layout() {
    // type tag, owner key, and each text field at its bound behind a
    // four-byte length prefix
    assert_eq!(STORAGE_DEPOSIT, 8 + 32 + (4 + 50) + (4 + 500));
}

#[test]
fn funding_accumulates() {
    let alice = key(9);
    let mut j = Journal::new();
    assert_eq!(j.balance(alice), 0);
    j.fund(alice, 10);
    j.fund(alice, 32);
    assert_eq!(j.balance(alice), 42);
}
