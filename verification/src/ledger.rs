//! A composite durable value: a counter together with a map of numbered
//! ASCII notes, with its verified codec.

use vstd::prelude::*;
use vstd::bytes::lemma_auto_spec_u64_to_from_le_bytes;
use vstd::utf8::is_ascii_chars;
use crate::codec::{
    Codec, enc_u64, dec_u64_at, enc_chars, dec_chars_at, lemma_dec_u64_at_prefix,
    lemma_dec_chars_at_prefix, put_u64, put_chars, get_u64, get_chars,
};
use crate::assoc::{lookup, lemma_lookup_push};

verus! {

/// The encoding of one note: its number, then its text.
pub open spec fn enc_note(e: (u64, Seq<char>)) -> Seq<u8> {
    enc_u64(e.0) + enc_chars(e.1)
}

/// The encoding of a run of notes, in order.
pub open spec fn enc_notes(m: Seq<(u64, Seq<char>)>) -> Seq<u8>
    decreases m.len(),
{
    if m.len() == 0 {
        Seq::empty()
    } else {
        enc_note(m[0]) + enc_notes(m.drop_first())
    }
}

/// Note runs the codec carries faithfully: the count and every text
/// length fit the length prefix, and every text is ASCII.
pub open spec fn valid_notes(m: Seq<(u64, Seq<char>)>) -> bool {
    &&& m.len() <= u64::MAX
    &&& forall|i: int|
        0 <= i < m.len() ==> is_ascii_chars((#[trigger] m[i]).1) && m[i].1.len() <= u64::MAX
}

/// Reads `count` notes starting at `pos`.
pub open spec fn dec_notes_at(b: Seq<u8>, pos: int, count: nat) -> Option<
    (Seq<(u64, Seq<char>)>, int),
>
    decreases count,
{
    if count == 0 {
        Some((Seq::empty(), pos))
    } else {
        match dec_u64_at(b, pos) {
            None => None,
            Some((k, p1)) => match dec_chars_at(b, p1) {
                None => None,
                Some((v, p2)) => match dec_notes_at(b, p2, (count - 1) as nat) {
                    None => None,
                    Some((rest, p3)) => Some((seq![(k, v)] + rest, p3)),
                },
            },
        }
    }
}

/// Appending a note appends its encoding.
pub proof fn lemma_enc_notes_push(m: Seq<(u64, Seq<char>)>, e: (u64, Seq<char>))
    ensures
        enc_notes(m.push(e)) == enc_notes(m) + enc_note(e),
    decreases m.len(),
{
    if m.len() == 0 {
        assert(m.push(e)[0] == e);
        assert(m.push(e).drop_first() =~= Seq::<(u64, Seq<char>)>::empty());
        assert(enc_notes(m.push(e)) == enc_note(e) + enc_notes(Seq::<(u64, Seq<char>)>::empty()));
        assert(enc_note(e) + Seq::<u8>::empty() =~= enc_note(e));
        assert(Seq::<u8>::empty() + enc_note(e) =~= enc_note(e));
    } else {
        assert(m.push(e)[0] == m[0]);
        assert(m.push(e).drop_first() =~= m.drop_first().push(e));
        lemma_enc_notes_push(m.drop_first(), e);
        assert(enc_notes(m.push(e)) == enc_note(m[0]) + (enc_notes(m.drop_first()) + enc_note(e)));
        assert(enc_note(m[0]) + (enc_notes(m.drop_first()) + enc_note(e)) =~= (enc_note(m[0])
            + enc_notes(m.drop_first())) + enc_note(e));
    }
}

/// Reading back an encoded run of notes recovers it and stops right
/// after it.
pub proof fn lemma_dec_notes_at_prefix(b: Seq<u8>, pos: int, m: Seq<(u64, Seq<char>)>)
    requires
        valid_notes(m),
        0 <= pos,
        pos + enc_notes(m).len() <= b.len(),
        b.subrange(pos, pos + enc_notes(m).len() as int) == enc_notes(m),
    ensures
        dec_notes_at(b, pos, m.len()) == Some((m, pos + enc_notes(m).len() as int)),
    decreases m.len(),
{
    lemma_auto_spec_u64_to_from_le_bytes();
    if m.len() == 0 {
    } else {
        let k = m[0].0;
        let v = m[0].1;
        let rest = m.drop_first();
        let whole = enc_notes(m);
        let ck = enc_u64(k);
        let cv = enc_chars(v);
        let renc = enc_notes(rest);
        assert(whole == (ck + cv) + renc);
        assert(cv.len() == 8 + v.len());
        assert(b.subrange(pos, pos + 8) =~= ck) by {
            assert forall|i: int| 0 <= i < 8 implies #[trigger] b.subrange(pos, pos + 8)[i]
                == ck[i] by {
                assert(b.subrange(pos, pos + whole.len() as int)[i] == whole[i]);
                assert(whole[i] == (ck + cv)[i]);
            }
        }
        lemma_dec_u64_at_prefix(b, pos, k);
        let p1 = pos + 8;
        assert(b.subrange(p1, p1 + cv.len() as int) =~= cv) by {
            assert forall|i: int| 0 <= i < cv.len() implies #[trigger] b.subrange(
                p1,
                p1 + cv.len() as int,
            )[i] == cv[i] by {
                assert(b.subrange(pos, pos + whole.len() as int)[8 + i] == whole[8 + i]);
                assert(whole[8 + i] == (ck + cv)[8 + i]);
            }
        }
        lemma_dec_chars_at_prefix(b, p1, v);
        let p2 = p1 + cv.len() as int;
        assert(valid_notes(rest)) by {
            assert forall|i: int|
                0 <= i < rest.len() implies is_ascii_chars((#[trigger] rest[i]).1) && rest[i].1.len()
                <= u64::MAX by {
                assert(rest[i] == m[i + 1]);
            }
        }
        assert(b.subrange(p2, p2 + renc.len() as int) =~= renc) by {
            assert forall|i: int| 0 <= i < renc.len() implies #[trigger] b.subrange(
                p2,
                p2 + renc.len() as int,
            )[i] == renc[i] by {
                assert(b.subrange(pos, pos + whole.len() as int)[8 + cv.len() + i] == whole[8
                    + cv.len() + i]);
            }
        }
        lemma_dec_notes_at_prefix(b, p2, rest);
        assert(seq![(k, v)] + rest =~= m);
    }
}

/// Whatever a run of notes decodes to is a valid note run of that
/// length.
pub proof fn lemma_dec_notes_at_valid(b: Seq<u8>, pos: int, count: nat)
    ensures
        match dec_notes_at(b, pos, count) {
            Some((m, p)) => m.len() == count && (count <= u64::MAX ==> valid_notes(m)),
            None => true,
        },
    decreases count,
{
    if count == 0 {
        if dec_notes_at(b, pos, count) is Some {
            assert(valid_notes(Seq::<(u64, Seq<char>)>::empty()));
        }
    } else {
        match dec_u64_at(b, pos) {
            None => {},
            Some((k, p1)) => {
                match dec_chars_at(b, p1) {
                    None => {},
                    Some((v, p2)) => {
                        lemma_dec_notes_at_valid(b, p2, (count - 1) as nat);
                        match dec_notes_at(b, p2, (count - 1) as nat) {
                            None => {},
                            Some((rest, p3)) => {
                                let m = seq![(k, v)] + rest;
                                assert(m.len() == count);
                                if count <= u64::MAX {
                                    let n0 = dec_u64_at(b, p1)->Some_0.0;
                                    let q = dec_u64_at(b, p1)->Some_0.1;
                                    assert(v == Seq::new(n0 as nat, |i: int| b[q + i] as char));
                                    assert(is_ascii_chars(v)) by {
                                        assert forall|j: int|
                                            0 <= j < v.len() implies '\0' <= #[trigger] v[j]
                                            <= '\u{7f}' by {
                                            assert(v[j] == b[q + j] as char);
                                            assert(b[q + j] < 128);
                                        }
                                    }
                                    assert(valid_notes(m)) by {
                                        assert forall|i: int|
                                            0 <= i < m.len() implies is_ascii_chars(
                                            (#[trigger] m[i]).1,
                                        ) && m[i].1.len() <= u64::MAX by {
                                            if i == 0 {
                                                assert(m[0] == (k, v));
                                            } else {
                                                assert(m[i] == rest[i - 1]);
                                            }
                                        }
                                    }
                                }
                            },
                        }
                    },
                }
            },
        }
    }
}

/// The model of a list of owned notes.
pub open spec fn notes_model(s: Seq<(u64, String)>) -> Seq<(u64, Seq<char>)> {
    Seq::new(s.len(), |i: int| (s[i].0, s[i].1@))
}

/// A map of ASCII notes keyed by number. When a number is bound more
/// than once the latest entry wins, as in [`crate::assoc::lookup`].
#[derive(Debug, Clone)]
pub struct NoteMap {
    pub entries: Vec<(u64, String)>,
}

impl View for NoteMap {
    type V = Seq<(u64, Seq<char>)>;

    open spec fn view(&self) -> Seq<(u64, Seq<char>)> {
        notes_model(self.entries@)
    }
}

impl NoteMap {
    /// An empty map: no number is bound.
    pub fn new() -> (t: NoteMap)
        ensures
            forall|k: u64| #[trigger] lookup(t@, k) is None,
            valid_notes(t@),
    {
        let t = NoteMap { entries: Vec::new() };
        proof {
            assert(t@ =~= Seq::<(u64, Seq<char>)>::empty());
        }
        t
    }

    /// The note bound to `key`, or `None` when the number is unbound.
    pub fn get(&self, key: u64) -> (r: Option<&String>)
        ensures
            match r {
                Some(v) => lookup(self@, key) == Some(v@),
                None => lookup(self@, key) is None,
            },
    {
        let mut r: Option<&String> = None;
        let mut i: usize = 0;
        while i < self.entries.len()
            invariant
                i <= self.entries@.len(),
                match r {
                    Some(v) => lookup(notes_model(self.entries@.take(i as int)), key) == Some(v@),
                    None => lookup(notes_model(self.entries@.take(i as int)), key) is None,
                },
            decreases self.entries@.len() - i,
        {
            let e = &self.entries[i];
            proof {
                let prefix = notes_model(self.entries@.take(i as int));
                let entry = (self.entries@[i as int].0, self.entries@[i as int].1@);
                assert(self.entries@.take(i as int + 1) =~= self.entries@.take(i as int).push(
                    self.entries@[i as int],
                ));
                assert(notes_model(self.entries@.take(i as int + 1)) =~= prefix.push(entry));
                lemma_lookup_push(prefix, entry, key);
            }
            if e.0 == key {
                r = Some(&self.entries[i].1);
            }
            i += 1;
        }
        proof {
            assert(self.entries@.take(self.entries@.len() as int) =~= self.entries@);
        }
        r
    }

    /// Binds `key` to the note `value`, dropping any earlier binding;
    /// every other number keeps its note, and a valid map stays valid.
    pub fn insert(&mut self, key: u64, value: &str)
        requires
            value.is_ascii(),
        ensures
            forall|n: u64| #[trigger] lookup(final(self)@, n) == (if n == key {
                Some(value@)
            } else {
                lookup(old(self)@, n)
            }),
            valid_notes(old(self)@) ==> valid_notes(final(self)@),
    {
        let value_s = value.to_owned();
        let value_len: usize = value.unicode_len();
        let ghost orig: Seq<(u64, Seq<char>)> = notes_model(self.entries@);
        let ghost mut done: int = 0;
        let mut kept: Vec<(u64, String)> = Vec::new();
        while self.entries.len() > 0
            invariant
                value_s@ == value@,
                0 <= done,
                done + self.entries@.len() == orig.len(),
                notes_model(self.entries@) =~= orig.skip(done),
                forall|n: u64| #[trigger] lookup(notes_model(kept@), n) == (if n == key {
                    None::<Seq<char>>
                } else {
                    lookup(orig.take(done), n)
                }),
                notes_model(kept@).len() <= done,
                valid_notes(orig) ==> valid_notes(notes_model(kept@)),
            decreases self.entries@.len(),
        {
            let ghost before = self.entries@;
            let e = self.entries.remove(0);
            proof {
                assert(notes_model(before)[0] == orig.skip(done)[0]);
                assert((e.0, e.1@) == orig[done]);
                assert(orig.take(done + 1) =~= orig.take(done).push(orig[done]));
                assert(notes_model(self.entries@) =~= orig.skip(done + 1)) by {
                    assert forall|j: int|
                        0 <= j < self.entries@.len() implies #[trigger] notes_model(
                        self.entries@,
                    )[j] == orig.skip(done + 1)[j] by {
                        assert(self.entries@[j] == before[j + 1]);
                        assert(notes_model(before)[j + 1] == orig.skip(done)[j + 1]);
                        assert(orig.skip(done)[j + 1] == orig[done + 1 + j]);
                    }
                }
                assert forall|n: u64| #[trigger] lookup(orig.take(done + 1), n) == (if (orig[done].0
                    == n) {
                    Some(orig[done].1)
                } else {
                    lookup(orig.take(done), n)
                }) by {
                    lemma_lookup_push(orig.take(done), orig[done], n);
                }
            }
            let keep = !(e.0 == key);
            if keep {
                let ghost kept_before = notes_model(kept@);
                kept.push(e);
                proof {
                    assert(notes_model(kept@) =~= kept_before.push((e.0, e.1@)));
                    assert forall|n: u64| #[trigger] lookup(notes_model(kept@), n) == (if n == key {
                        None::<Seq<char>>
                    } else {
                        lookup(orig.take(done + 1), n)
                    }) by {
                        lemma_lookup_push(kept_before, (e.0, e.1@), n);
                    }
                    if valid_notes(orig) {
                        assert(notes_model(kept@).len() <= orig.len());
                        assert(valid_notes(notes_model(kept@))) by {
                            assert forall|j: int|
                                0 <= j < notes_model(kept@).len() implies is_ascii_chars(
                                (#[trigger] notes_model(kept@)[j]).1,
                            ) && notes_model(kept@)[j].1.len() <= u64::MAX by {
                                if j < kept_before.len() {
                                    assert(notes_model(kept@)[j] == kept_before[j]);
                                } else {
                                    assert(notes_model(kept@)[j] == orig[done]);
                                }
                            }
                        }
                    }
                }
            }
            proof {
                done = done + 1;
            }
        }
        proof {
            assert(orig.take(done) =~= orig);
        }
        let ghost kept_final = notes_model(kept@);
        kept.push((key, value_s));
        let n_after: usize = kept.len();
        self.entries = kept;
        proof {
            assert(self@ =~= kept_final.push((key, value@)));
            assert(self@.len() == n_after);
            assert(self@.len() <= u64::MAX);
            assert forall|n: u64| #[trigger] lookup(self@, n) == (if n == key {
                Some(value@)
            } else {
                lookup(orig, n)
            }) by {
                lemma_lookup_push(kept_final, (key, value@), n);
            }
            if valid_notes(orig) {
                assert(valid_notes(self@)) by {
                    assert forall|j: int|
                        0 <= j < self@.len() implies is_ascii_chars((#[trigger] self@[j]).1)
                        && self@[j].1.len() <= u64::MAX by {
                        if j < kept_final.len() {
                            assert(self@[j] == kept_final[j]);
                        } else {
                            assert(self@[j] == (key, value@));
                            assert(value@.len() == value_len);
                        }
                    }
                }
            }
        }
    }
}

/// A counter together with a map of numbered notes: a composite value
/// persisted as one unit.
#[derive(Debug, Clone)]
pub struct Ledger {
    pub i: u64,
    pub m: NoteMap,
}

impl View for Ledger {
    type V = (u64, Seq<(u64, Seq<char>)>);

    open spec fn view(&self) -> (u64, Seq<(u64, Seq<char>)>) {
        (self.i, self.m@)
    }
}

/// Reads `count` notes starting at `pos`, following `dec_notes_at`.
fn read_notes(b: &[u8], pos: usize, count: u64) -> (r: Option<(Vec<(u64, String)>, usize)>)
    requires
        pos <= b@.len(),
    ensures
        match r {
            Some((es, p)) => dec_notes_at(b@, pos as int, count as nat) == Some(
                (notes_model(es@), p as int),
            ) && p <= b@.len(),
            None => dec_notes_at(b@, pos as int, count as nat) is None,
        },
    decreases count,
{
    if count == 0 {
        let es: Vec<(u64, String)> = Vec::new();
        proof {
            assert(notes_model(es@) =~= Seq::<(u64, Seq<char>)>::empty());
        }
        Some((es, pos))
    } else {
        match get_u64(b, pos) {
            None => None,
            Some((k, p1)) => match get_chars(b, p1) {
                None => None,
                Some((v, p2)) => match read_notes(b, p2, count - 1) {
                    None => None,
                    Some((es, p3)) => {
                        let ghost tail = notes_model(es@);
                        let mut es = es;
                        es.insert(0, (k, v));
                        proof {
                            assert(notes_model(es@) =~= seq![(k, v@)] + tail);
                        }
                        Some((es, p3))
                    },
                },
            },
        }
    }
}

impl Codec for Ledger {
    open spec fn valid(m: (u64, Seq<(u64, Seq<char>)>)) -> bool {
        valid_notes(m.1)
    }

    open spec fn enc(m: (u64, Seq<(u64, Seq<char>)>)) -> Seq<u8> {
        enc_u64(m.0) + enc_u64(m.1.len() as u64) + enc_notes(m.1)
    }

    open spec fn dec(b: Seq<u8>) -> Option<(u64, Seq<(u64, Seq<char>)>)> {
        match dec_u64_at(b, 0) {
            None => None,
            Some((i, p0)) => match dec_u64_at(b, p0) {
                None => None,
                Some((n, p1)) => match dec_notes_at(b, p1, n as nat) {
                    None => None,
                    Some((m, q)) => if q == b.len() {
                        Some((i, m))
                    } else {
                        None
                    },
                },
            },
        }
    }

    proof fn round_trip(m: (u64, Seq<(u64, Seq<char>)>)) {
        lemma_auto_spec_u64_to_from_le_bytes();
        let b = Self::enc(m);
        let renc = enc_notes(m.1);
        assert(b.subrange(0, 8) =~= enc_u64(m.0));
        lemma_dec_u64_at_prefix(b, 0, m.0);
        assert(b.subrange(8, 16) =~= enc_u64(m.1.len() as u64));
        lemma_dec_u64_at_prefix(b, 8, m.1.len() as u64);
        assert(b.subrange(16, 16 + renc.len() as int) =~= renc);
        lemma_dec_notes_at_prefix(b, 16, m.1);
        assert((m.1.len() as u64) as nat == m.1.len());
    }

    proof fn dec_valid(b: Seq<u8>) {
        match dec_u64_at(b, 0) {
            None => {},
            Some((i, p0)) => {
                match dec_u64_at(b, p0) {
                    None => {},
                    Some((n, p1)) => {
                        lemma_dec_notes_at_valid(b, p1, n as nat);
                    },
                }
            },
        }
    }

    fn is_valid(&self) -> (r: bool) {
        let n: usize = self.m.entries.len();
        let mut i: usize = 0;
        while i < n
            invariant
                i <= n,
                n == self.m.entries@.len(),
                forall|j: int|
                    0 <= j < i ==> is_ascii_chars((#[trigger] self.m@[j]).1) && self.m@[j].1.len()
                        <= u64::MAX,
            decreases n - i,
        {
            let e = &self.m.entries[i];
            if !e.1.as_str().is_ascii() {
                assert(!is_ascii_chars(self.m@[i as int].1));
                return false;
            }
            let l: usize = e.1.as_str().unicode_len();
            assert(self.m@[i as int].1.len() == l);
            i += 1;
        }
        true
    }

    fn encode(&self) -> (r: Vec<u8>) {
        let n: usize = self.m.entries.len();
        let mut out: Vec<u8> = Vec::new();
        put_u64(&mut out, self.i);
        put_u64(&mut out, n as u64);
        let mut i: usize = 0;
        while i < n
            invariant
                i <= n,
                n == self.m.entries@.len(),
                valid_notes(self.m@),
                out@ == enc_u64(self.i) + enc_u64(n as u64) + enc_notes(self.m@.take(i as int)),
            decreases n - i,
        {
            let e = &self.m.entries[i];
            proof {
                assert(self.m@[i as int] == (self.m.entries@[i as int].0, self.m.entries@[i as int].1@));
                assert(is_ascii_chars(self.m@[i as int].1));
            }
            put_u64(&mut out, e.0);
            put_chars(&mut out, e.1.as_str());
            proof {
                lemma_enc_notes_push(self.m@.take(i as int), self.m@[i as int]);
                assert(self.m@.take(i as int + 1) =~= self.m@.take(i as int).push(
                    self.m@[i as int],
                ));
                assert(out@ =~= enc_u64(self.i) + enc_u64(n as u64) + enc_notes(
                    self.m@.take(i as int + 1),
                ));
            }
            i += 1;
        }
        proof {
            assert(self.m@.take(n as int) =~= self.m@);
            assert(out@ =~= Self::enc(self@));
        }
        out
    }

    fn decode(b: &[u8]) -> (r: Option<Ledger>) {
        match get_u64(b, 0) {
            None => None,
            Some((i, p0)) => match get_u64(b, p0) {
                None => None,
                Some((n, p1)) => match read_notes(b, p1, n) {
                    None => None,
                    Some((es, q)) => {
                        if q == b.len() {
                            Some(Ledger { i, m: NoteMap { entries: es } })
                        } else {
                            None
                        }
                    },
                },
            },
        }
    }
}

} // verus!
