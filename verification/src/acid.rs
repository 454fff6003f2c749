//! The durable container and its transaction handle.
//!
//! A [`Persistent`] pairs a typed value with the identity of its backing
//! file. Beginning a transaction consumes the container, resyncs the
//! value from the backing file on a best-effort basis, and yields a
//! [`Txn`] holding the value exclusively; committing the transaction
//! encodes the value, proves the round-trip self-check, overwrites the
//! backing file, and returns the container.

use vstd::prelude::*;
use crate::codec::Codec;
use crate::store::Store;

verus! {

/// The value a transaction starts from: the decoded backing file when it
/// exists and decodes, the in-memory value otherwise.
pub open spec fn resync_spec<T: Codec>(current: T::V, disk: Option<Seq<u8>>) -> T::V {
    match disk {
        Some(b) => match T::dec(b) {
            Some(m) => m,
            None => current,
        },
        None => current,
    }
}

/// A durable container: a typed value under a stable identity that names
/// its backing file.
///
/// Exactly one container should exist per identity within a process.
/// Beginning a transaction consumes the container and committing returns
/// it, so exclusive access is enforced by ownership: there is no lock to
/// block on and none to poison.
#[derive(Debug)]
pub struct Persistent<T: Codec> {
    pub value: T,
    pub name: String,
}

/// An exclusive, short-lived transaction on a durable container. While
/// it lives, the container is unavailable; [`Txn::commit`] persists the
/// value and gives the container back.
#[derive(Debug)]
pub struct Txn<T: Codec> {
    pub value: T,
    pub name: String,
}

impl<T: Codec> Persistent<T> {
    /// Wraps `initial` under the identity `name`; no file is touched.
    pub fn new(name: &str, initial: T) -> (p: Persistent<T>)
        ensures
            p.name@ == name@,
            p.value == initial,
    {
        Persistent { value: initial, name: name.to_owned() }
    }

    /// The decoded contents of the backing file; `None` when the file is
    /// missing or does not decode.
    pub fn read(&self, store: &Store) -> (r: Option<T>)
        ensures
            match r {
                Some(v) => store.file(self.name@) matches Some(b) && T::dec(b) == Some(v@),
                None => match store.file(self.name@) {
                    Some(b) => T::dec(b) is None,
                    None => true,
                },
            },
    {
        match store.get(self.name.as_str()) {
            None => None,
            Some(bytes) => T::decode(bytes.as_slice()),
        }
    }

    /// Begins a transaction. The in-memory value is replaced by the
    /// backing file's contents when they decode; a missing or corrupt
    /// file leaves it unchanged and raises no error.
    pub fn handle(self, store: &Store) -> (txn: Txn<T>)
        requires
            T::valid(self.value@),
        ensures
            txn.name@ == self.name@,
            txn.value@ == resync_spec::<T>(self.value@, store.file(self.name@)),
            T::valid(txn.value@),
    {
        let value = match self.read(store) {
            Some(v) => {
                proof {
                    T::dec_valid(store.file(self.name@)->Some_0);
                }
                v
            },
            None => self.value,
        };
        Txn { value, name: self.name }
    }

    /// Best-effort deletion of the backing file, meant for resets and
    /// tests; the in-memory value is untouched.
    pub fn clear(&self, store: &mut Store)
        ensures
            final(store).file(self.name@) is None,
            forall|n: Seq<char>| n != self.name@ ==> #[trigger] final(store).file(n) == old(
                store,
            ).file(n),
    {
        store.remove(self.name.as_str());
    }
}

/// Encodes `value` and performs the commit self-check: the freshly
/// encoded bytes are decoded again before they may overwrite the
/// authoritative file, and the round-trip law proves the check passes.
pub fn commit_bytes<T: Codec>(value: &T) -> (r: Vec<u8>)
    requires
        T::valid(value@),
    ensures
        r@ == T::enc(value@),
        T::dec(r@) == Some(value@),
{
    let bytes = value.encode();
    proof {
        T::round_trip(value@);
    }
    match T::decode(bytes.as_slice()) {
        Some(_) => bytes,
        None => vstd::pervasive::unreached(),
    }
}

/// Replaces `current` with the decoded disk bytes when they decode and
/// keeps it otherwise: the compute half of beginning a transaction, for
/// a caller that reads the backing file itself.
pub fn resync_value<T: Codec>(current: &mut T, disk: Option<Vec<u8>>)
    requires
        T::valid(old(current)@),
    ensures
        final(current)@ == resync_spec::<T>(
            old(current)@,
            match disk {
                Some(b) => Some(b@),
                None => None,
            },
        ),
        T::valid(final(current)@),
{
    match disk {
        None => {},
        Some(bytes) => match T::decode(bytes.as_slice()) {
            Some(v) => {
                proof {
                    T::dec_valid(bytes@);
                }
                *current = v;
            },
            None => {},
        },
    }
}

impl<T: Codec> Txn<T> {
    /// The value under transaction.
    pub fn get(&self) -> (r: &T)
        ensures
            *r == self.value,
    {
        &self.value
    }

    /// Replaces the value under transaction.
    pub fn set(&mut self, value: T)
        ensures
            final(self).value == value,
            final(self).name == old(self).name,
    {
        self.value = value;
    }

    /// Commits the transaction: encodes the value, proves the self-check,
    /// overwrites the backing file, and returns the container. Runs on
    /// every exit path of a transaction, mutated or not; its effect on
    /// the store is stated here rather than hidden in a finalizer.
    pub fn commit(self, store: &mut Store) -> (p: Persistent<T>)
        requires
            T::valid(self.value@),
        ensures
            p.value == self.value,
            p.name == self.name,
            final(store).file(self.name@) == Some(T::enc(self.value@)),
            forall|n: Seq<char>| n != self.name@ ==> #[trigger] final(store).file(n) == old(
                store,
            ).file(n),
    {
        let bytes = commit_bytes(&self.value);
        store.put(self.name.as_str(), bytes);
        Persistent { value: self.value, name: self.name }
    }
}

/// Commit durability: the bytes a commit writes decode to exactly the
/// committed value.
pub proof fn lemma_commit_durable<T: Codec>(m: T::V)
    requires
        T::valid(m),
    ensures
        T::dec(T::enc(m)) == Some(m),
{
    T::round_trip(m);
}

/// Sequential handoff: whatever value sits in memory, resyncing against
/// a file holding a committed encoding yields the committed value, so
/// the second of two sequential transactions observes the first one's
/// commit and no update is lost between them.
pub proof fn lemma_sequential_handoff<T: Codec>(committed: T::V, current: T::V)
    requires
        T::valid(committed),
    ensures
        resync_spec::<T>(current, Some(T::enc(committed))) == committed,
{
    T::round_trip(committed);
}

/// Resync overrides memory: when the backing file decodes, a beginning
/// transaction starts from the file's value, not the in-memory one.
pub proof fn lemma_resync_overrides<T: Codec>(current: T::V, b: Seq<u8>, m: T::V)
    requires
        T::dec(b) == Some(m),
    ensures
        resync_spec::<T>(current, Some(b)) == m,
{
}

/// Resync resilience: a missing or undecodable backing file leaves the
/// in-memory value in place, and raises nothing.
pub proof fn lemma_resync_resilient<T: Codec>(current: T::V, disk: Option<Seq<u8>>)
    requires
        disk matches Some(b) ==> T::dec(b) is None,
    ensures
        resync_spec::<T>(current, disk) == current,
{
}

} // verus!
