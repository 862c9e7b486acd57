//! Identities and derived storage addresses.
//!
//! Every record lives at an address computed from the pair (owner identity,
//! title bytes).  The derivation is a pure function, and it is injective: the
//! owner's key is laid out as a fixed-width prefix, so two distinct
//! (owner, title) pairs can never share an address.

use vstd::prelude::*;

verus! {

/// A caller's identity: the public key that signs an operation and that a
/// record stores as its owner.
#[derive(Clone, Copy, PartialEq, Eq, Structural, Debug)]
pub struct Pubkey {
    pub id: u64,
}

/// The big-endian bytes of a 64-bit key, most significant first.
pub open spec fn be_bytes_of(x: u64) -> Seq<u8> {
    seq![
        ((x >> 56) & 0xff) as u8,
        ((x >> 48) & 0xff) as u8,
        ((x >> 40) & 0xff) as u8,
        ((x >> 32) & 0xff) as u8,
        ((x >> 24) & 0xff) as u8,
        ((x >> 16) & 0xff) as u8,
        ((x >> 8) & 0xff) as u8,
        (x & 0xff) as u8,
    ]
}

/// The storage address of the record identified by (owner, title): the
/// owner's key as a fixed-width prefix, followed by the title bytes.
pub open spec fn address_of(owner: Pubkey, title: Seq<u8>) -> Seq<u8> {
    be_bytes_of(owner.id) + title
}

/// Computes the storage address of (owner, title).
pub fn derive_address(owner: Pubkey, title: &Vec<u8>) -> (r: Vec<u8>)
    ensures
        r@ == address_of(owner, title@),
{
    let x: u64 = owner.id;
    proof {
        assert((x >> 56) & 0xff < 256 && (x >> 48) & 0xff < 256 && (x >> 40) & 0xff < 256
            && (x >> 32) & 0xff < 256 && (x >> 24) & 0xff < 256 && (x >> 16) & 0xff < 256
            && (x >> 8) & 0xff < 256 && x & 0xff < 256) by (bit_vector);
    }
    let mut out: Vec<u8> = Vec::new();
    out.push(((x >> 56) & 0xff) as u8);
    out.push(((x >> 48) & 0xff) as u8);
    out.push(((x >> 40) & 0xff) as u8);
    out.push(((x >> 32) & 0xff) as u8);
    out.push(((x >> 24) & 0xff) as u8);
    out.push(((x >> 16) & 0xff) as u8);
    out.push(((x >> 8) & 0xff) as u8);
    out.push((x & 0xff) as u8);
    proof {
        assert(out@ =~= be_bytes_of(x));
    }
    let mut i: usize = 0;
    while i < title.len()
        invariant
            i <= title@.len(),
            out@ == be_bytes_of(x) + title@.subrange(0, i as int),
        decreases title@.len() - i,
    {
        out.push(title[i]);
        i = i + 1;
        proof {
            assert(out@ =~= be_bytes_of(x) + title@.subrange(0, i as int));
        }
    }
    proof {
        assert(title@.subrange(0, title@.len() as int) =~= title@);
    }
    out
}

/// The derivation is injective: records of distinct (owner, title) pairs
/// always live at distinct addresses, so one owner can hold at most one
/// record per title, and different owners may reuse a title freely.
pub proof fn lemma_address_injective(o1: Pubkey, t1: Seq<u8>, o2: Pubkey, t2: Seq<u8>)
    requires
        address_of(o1, t1) == address_of(o2, t2),
    ensures
        o1 == o2,
        t1 == t2,
{
    let x = o1.id;
    let y = o2.id;
    let a1 = address_of(o1, t1);
    let a2 = address_of(o2, t2);
    assert(a1.len() == 8 + t1.len());
    assert(a2.len() == 8 + t2.len());
    assert forall|k: int| 0 <= k < 8 implies be_bytes_of(x)[k] == be_bytes_of(y)[k] by {
        assert(a1[k] == be_bytes_of(x)[k]);
        assert(a2[k] == be_bytes_of(y)[k]);
    }
    assert(((x >> 56) & 0xff) as u8 == ((y >> 56) & 0xff) as u8
        && ((x >> 48) & 0xff) as u8 == ((y >> 48) & 0xff) as u8
        && ((x >> 40) & 0xff) as u8 == ((y >> 40) & 0xff) as u8
        && ((x >> 32) & 0xff) as u8 == ((y >> 32) & 0xff) as u8
        && ((x >> 24) & 0xff) as u8 == ((y >> 24) & 0xff) as u8
        && ((x >> 16) & 0xff) as u8 == ((y >> 16) & 0xff) as u8
        && ((x >> 8) & 0xff) as u8 == ((y >> 8) & 0xff) as u8
        && (x & 0xff) as u8 == (y & 0xff) as u8);
    assert((((x >> 56) & 0xff) as u8 == ((y >> 56) & 0xff) as u8
        && ((x >> 48) & 0xff) as u8 == ((y >> 48) & 0xff) as u8
        && ((x >> 40) & 0xff) as u8 == ((y >> 40) & 0xff) as u8
        && ((x >> 32) & 0xff) as u8 == ((y >> 32) & 0xff) as u8
        && ((x >> 24) & 0xff) as u8 == ((y >> 24) & 0xff) as u8
        && ((x >> 16) & 0xff) as u8 == ((y >> 16) & 0xff) as u8
        && ((x >> 8) & 0xff) as u8 == ((y >> 8) & 0xff) as u8
        && (x & 0xff) as u8 == (y & 0xff) as u8) ==> x == y) by (bit_vector);
    assert(t1.len() == t2.len());
    assert forall|k: int| 0 <= k < t1.len() implies t1[k] == t2[k] by {
        assert(a1[8 + k] == t1[k]);
        assert(a2[8 + k] == t2[k]);
    }
    assert(t1 =~= t2);
}

/// Byte-for-byte equality of two byte strings.
pub fn bytes_eq(a: &Vec<u8>, b: &Vec<u8>) -> (r: bool)
    ensures
        r == (a@ == b@),
{
    if a.len() != b.len() {
        return false;
    }
    let mut i: usize = 0;
    while i < a.len()
        invariant
            a@.len() == b@.len(),
            i <= a@.len(),
            forall|j: int| 0 <= j < i ==> a@[j] == b@[j],
        decreases a@.len() - i,
    {
        if a[i] != b[i] {
            return false;
        }
        i = i + 1;
    }
    proof {
        assert(a@ =~= b@);
    }
    true
}

} // verus!
