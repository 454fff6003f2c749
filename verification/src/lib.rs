//! Durable, transactional in-memory state.
//!
//! A [`Persistent`] container guards a typed value together with a stable
//! identity. Beginning a transaction resyncs the value from its backing
//! file (best effort), hands out a [`Txn`] with exclusive access, and
//! committing the transaction encodes the value, overwrites the backing
//! file and proves that the written bytes decode back to the same value.
//!
//! The backing files live in a [`Store`], an explicit model of the file
//! system: a program that wants real disk files performs the reads and
//! writes itself and drives the same verified resync and commit logic
//! through [`resync_value`] and [`commit_bytes`].

pub mod acid;
pub mod assoc;
pub mod codec;
pub mod ledger;
pub mod store;
pub mod values;

pub use acid::{Persistent, Txn, commit_bytes, resync_value};
pub use codec::Codec;
pub use ledger::{Ledger, NoteMap};
pub use store::Store;
pub use values::{Register, Table};
