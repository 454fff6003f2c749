//! An explicit model of the backing file system: named files with raw
//! byte contents. The durable container reads and writes its backing
//! file through a [`Store`], so every claim about persistence is a claim
//! about the store's contents.

use vstd::prelude::*;
use crate::assoc::{lookup, lemma_lookup_push};

verus! {

/// The model of a list of named files: each name with its bytes.
pub open spec fn files_model(files: Seq<(String, Vec<u8>)>) -> Seq<(Seq<char>, Seq<u8>)> {
    Seq::new(files.len(), |i: int| (files[i].0@, files[i].1@))
}

/// A set of named files held in memory. A program backed by real disk
/// files performs the reads and writes itself and drives the verified
/// resync and commit logic with the bytes it moved.
pub struct Store {
    pub files: Vec<(String, Vec<u8>)>,
}

impl View for Store {
    type V = Seq<(Seq<char>, Seq<u8>)>;

    open spec fn view(&self) -> Seq<(Seq<char>, Seq<u8>)> {
        files_model(self.files@)
    }
}

impl Store {
    /// The contents of the file called `name`, if it exists.
    pub open spec fn file(self, name: Seq<char>) -> Option<Seq<u8>> {
        lookup(self@, name)
    }

    /// An empty store: no file exists.
    pub fn new() -> (s: Store)
        ensures
            forall|n: Seq<char>| #[trigger] s.file(n) is None,
    {
        let s = Store { files: Vec::new() };
        proof {
            assert(s@ =~= Seq::<(Seq<char>, Seq<u8>)>::empty());
        }
        s
    }

    /// The contents of the file called `name`, or `None` when it is
    /// missing.
    pub fn get(&self, name: &str) -> (r: Option<&Vec<u8>>)
        ensures
            match r {
                Some(c) => self.file(name@) == Some(c@),
                None => self.file(name@) is None,
            },
    {
        let name_s = name.to_owned();
        let mut r: Option<&Vec<u8>> = None;
        let mut i: usize = 0;
        while i < self.files.len()
            invariant
                i <= self.files@.len(),
                name_s@ == name@,
                match r {
                    Some(c) => lookup(files_model(self.files@.take(i as int)), name@) == Some(
                        c@,
                    ),
                    None => lookup(files_model(self.files@.take(i as int)), name@) is None,
                },
            decreases self.files@.len() - i,
        {
            let e = &self.files[i];
            proof {
                let prefix = files_model(self.files@.take(i as int));
                let entry = (self.files@[i as int].0@, self.files@[i as int].1@);
                assert(self.files@.take(i as int + 1) =~= self.files@.take(i as int).push(
                    self.files@[i as int],
                ));
                assert(files_model(self.files@.take(i as int + 1)) =~= prefix.push(entry));
                lemma_lookup_push(prefix, entry, name@);
            }
            if e.0 == name_s {
                r = Some(&self.files[i].1);
            }
            i += 1;
        }
        proof {
            assert(self.files@.take(self.files@.len() as int) =~= self.files@);
        }
        r
    }

    /// Deletes the file called `name`; every other file is untouched.
    pub fn remove(&mut self, name: &str)
        ensures
            forall|n: Seq<char>| #[trigger] final(self).file(n) == (if n == name@ {
                None::<Seq<u8>>
            } else {
                old(self).file(n)
            }),
    {
        let name_s = name.to_owned();
        let ghost orig: Seq<(Seq<char>, Seq<u8>)> = files_model(self.files@);
        let ghost mut done: int = 0;
        let mut kept: Vec<(String, Vec<u8>)> = Vec::new();
        while self.files.len() > 0
            invariant
                name_s@ == name@,
                0 <= done,
                done + self.files@.len() == orig.len(),
                files_model(self.files@) =~= orig.skip(done),
                forall|n: Seq<char>| #[trigger] lookup(files_model(kept@), n) == (if n
                    == name@ {
                    None::<Seq<u8>>
                } else {
                    lookup(orig.take(done), n)
                }),
            decreases self.files@.len(),
        {
            let ghost before = self.files@;
            let e = self.files.remove(0);
            proof {
                assert(files_model(before)[0] == orig.skip(done)[0]);
                assert((e.0@, e.1@) == orig[done]);
                assert(orig.take(done + 1) =~= orig.take(done).push(orig[done]));
                assert(files_model(self.files@) =~= orig.skip(done + 1)) by {
                    assert forall|j: int|
                        0 <= j < self.files@.len() implies #[trigger] files_model(self.files@)[j]
                        == orig.skip(done + 1)[j] by {
                        assert(self.files@[j] == before[j + 1]);
                        assert(files_model(self.files@)[j] == (before[j + 1].0@, before[j + 1].1@));
                        assert(files_model(before)[j + 1] == orig.skip(done)[j + 1]);
                        assert(orig.skip(done)[j + 1] == orig[done + 1 + j]);
                    }
                }
            }
            let keep = !(e.0 == name_s);
            proof {
                assert forall|n: Seq<char>| #[trigger] lookup(orig.take(done + 1), n) == (if (
                orig[done].0 == n) {
                    Some(orig[done].1)
                } else {
                    lookup(orig.take(done), n)
                }) by {
                    lemma_lookup_push(orig.take(done), orig[done], n);
                }
            }
            if keep {
                let ghost kept_before = files_model(kept@);
                kept.push(e);
                proof {
                    assert(files_model(kept@) =~= kept_before.push((e.0@, e.1@)));
                    assert forall|n: Seq<char>| #[trigger] lookup(files_model(kept@), n) == (if n
                        == name@ {
                        None::<Seq<u8>>
                    } else {
                        lookup(orig.take(done + 1), n)
                    }) by {
                        lemma_lookup_push(kept_before, (e.0@, e.1@), n);
                    }
                }
            }
            proof {
                done = done + 1;
            }
        }
        proof {
            assert(orig.take(done) =~= orig);
        }
        self.files = kept;
    }

    /// Writes `contents` as the file called `name`, replacing any
    /// previous contents; every other file is untouched.
    pub fn put(&mut self, name: &str, contents: Vec<u8>)
        ensures
            final(self).file(name@) == Some(contents@),
            forall|n: Seq<char>| n != name@ ==> #[trigger] final(self).file(n) == old(
                self,
            ).file(n),
    {
        self.remove(name);
        let ghost mid = *self;
        let ghost c: Seq<u8> = contents@;
        self.files.push((name.to_owned(), contents));
        proof {
            assert(self@ =~= mid@.push((name@, c)));
            assert forall|n: Seq<char>| #[trigger] self.file(n) == (if n == name@ {
                Some(c)
            } else {
                mid.file(n)
            }) by {
                lemma_lookup_push(mid@, (name@, c), n);
            }
        }
    }
}

} // verus!
