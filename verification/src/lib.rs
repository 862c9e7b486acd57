//! A verified journal-entry store.
//!
//! Records of the form (owner, title, message) are kept at storage addresses
//! derived deterministically from the pair (owner, title).  The store offers
//! three operations — create, update, delete — guarded by an explicit
//! authorization check against the stored owner, and accounts for the storage
//! deposit that a record holds: paid at creation, refunded at deletion.

pub mod address;
pub mod model;
pub mod journal;
pub mod laws;
