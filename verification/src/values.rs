//! Value types the durable container ships with: a one-field record and
//! a string-keyed table of counters, each with its verified codec.

use vstd::prelude::*;
use vstd::bytes::{spec_u64_from_le_bytes, lemma_auto_spec_u64_to_from_le_bytes, u64_from_le_bytes, u64_to_le_bytes};
use vstd::utf8::is_ascii_chars;
use crate::codec::{
    Codec, enc_u64, dec_u64_at, enc_chars, dec_chars_at, lemma_dec_u64_at_prefix,
    lemma_dec_chars_at_prefix, put_u64, put_chars, get_u64, get_chars,
};
use crate::assoc::{lookup, lemma_lookup_push};

verus! {

/// A record holding one counter; the smallest value worth persisting.
#[derive(Debug, Clone, Copy, PartialEq, Eq, Structural)]
pub struct Register {
    pub v: u64,
}

impl View for Register {
    type V = u64;

    open spec fn view(&self) -> u64 {
        self.v
    }
}

impl Codec for Register {
    open spec fn valid(m: u64) -> bool {
        true
    }

    open spec fn enc(m: u64) -> Seq<u8> {
        enc_u64(m)
    }

    open spec fn dec(b: Seq<u8>) -> Option<u64> {
        if b.len() == 8 {
            Some(spec_u64_from_le_bytes(b))
        } else {
            None
        }
    }

    proof fn round_trip(m: u64) {
        lemma_auto_spec_u64_to_from_le_bytes();
    }

    proof fn dec_valid(b: Seq<u8>) {
    }

    fn is_valid(&self) -> (r: bool) {
        true
    }

    fn encode(&self) -> (r: Vec<u8>) {
        u64_to_le_bytes(self.v)
    }

    fn decode(b: &[u8]) -> (r: Option<Register>) {
        if b.len() == 8 {
            Some(Register { v: u64_from_le_bytes(b) })
        } else {
            None
        }
    }
}

/// The encoding of one table entry: the key, then the counter.
pub open spec fn enc_entry(e: (Seq<char>, u64)) -> Seq<u8> {
    enc_chars(e.0) + enc_u64(e.1)
}

/// The encoding of a run of table entries, in order.
pub open spec fn enc_entries(m: Seq<(Seq<char>, u64)>) -> Seq<u8>
    decreases m.len(),
{
    if m.len() == 0 {
        Seq::empty()
    } else {
        enc_entry(m[0]) + enc_entries(m.drop_first())
    }
}

/// Entry runs the table codec carries faithfully: the entry count and
/// every key length fit the length prefix, and every key is ASCII.
pub open spec fn valid_entries(m: Seq<(Seq<char>, u64)>) -> bool {
    &&& m.len() <= u64::MAX
    &&& forall|i: int|
        0 <= i < m.len() ==> is_ascii_chars((#[trigger] m[i]).0) && m[i].0.len() <= u64::MAX
}

/// Reads `count` entries starting at `pos`.
pub open spec fn dec_entries_at(b: Seq<u8>, pos: int, count: nat) -> Option<
    (Seq<(Seq<char>, u64)>, int),
>
    decreases count,
{
    if count == 0 {
        Some((Seq::empty(), pos))
    } else {
        match dec_chars_at(b, pos) {
            None => None,
            Some((k, p1)) => match dec_u64_at(b, p1) {
                None => None,
                Some((v, p2)) => match dec_entries_at(b, p2, (count - 1) as nat) {
                    None => None,
                    Some((rest, p3)) => Some((seq![(k, v)] + rest, p3)),
                },
            },
        }
    }
}

/// The encoding of a whole table: the entry count, then the entries.
pub open spec fn enc_table(m: Seq<(Seq<char>, u64)>) -> Seq<u8> {
    enc_u64(m.len() as u64) + enc_entries(m)
}

/// Decodes a whole table; every byte must be consumed.
pub open spec fn dec_table(b: Seq<u8>) -> Option<Seq<(Seq<char>, u64)>> {
    match dec_u64_at(b, 0) {
        None => None,
        Some((n, p)) => match dec_entries_at(b, p, n as nat) {
            None => None,
            Some((m, q)) => if q == b.len() {
                Some(m)
            } else {
                None
            },
        },
    }
}

/// Appending an entry appends its encoding.
pub proof fn lemma_enc_entries_push(m: Seq<(Seq<char>, u64)>, e: (Seq<char>, u64))
    ensures
        enc_entries(m.push(e)) == enc_entries(m) + enc_entry(e),
    decreases m.len(),
{
    if m.len() == 0 {
        assert(m.push(e)[0] == e);
        assert(m.push(e).drop_first() =~= Seq::<(Seq<char>, u64)>::empty());
        assert(enc_entries(m.push(e)) == enc_entry(e) + enc_entries(
            Seq::<(Seq<char>, u64)>::empty(),
        ));
        assert(enc_entry(e) + Seq::<u8>::empty() =~= enc_entry(e));
        assert(Seq::<u8>::empty() + enc_entry(e) =~= enc_entry(e));
    } else {
        assert(m.push(e)[0] == m[0]);
        assert(m.push(e).drop_first() =~= m.drop_first().push(e));
        lemma_enc_entries_push(m.drop_first(), e);
        assert(enc_entries(m.push(e)) == enc_entry(m[0]) + (enc_entries(m.drop_first())
            + enc_entry(e)));
        assert(enc_entry(m[0]) + (enc_entries(m.drop_first()) + enc_entry(e)) =~= (enc_entry(m[0])
            + enc_entries(m.drop_first())) + enc_entry(e));
    }
}

/// Reading back an encoded run of entries recovers it and stops right
/// after it.
pub proof fn lemma_dec_entries_at_prefix(b: Seq<u8>, pos: int, m: Seq<(Seq<char>, u64)>)
    requires
        valid_entries(m),
        0 <= pos,
        pos + enc_entries(m).len() <= b.len(),
        b.subrange(pos, pos + enc_entries(m).len() as int) == enc_entries(m),
    ensures
        dec_entries_at(b, pos, m.len()) == Some((m, pos + enc_entries(m).len() as int)),
    decreases m.len(),
{
    lemma_auto_spec_u64_to_from_le_bytes();
    if m.len() == 0 {
    } else {
        let k = m[0].0;
        let v = m[0].1;
        let rest = m.drop_first();
        let whole = enc_entries(m);
        let ck = enc_chars(k);
        let cv = enc_u64(v);
        let renc = enc_entries(rest);
        assert(whole == (ck + cv) + renc);
        assert(ck.len() == 8 + k.len());
        assert(b.subrange(pos, pos + ck.len() as int) =~= ck) by {
            assert forall|i: int| 0 <= i < ck.len() implies #[trigger] b.subrange(
                pos,
                pos + ck.len() as int,
            )[i] == ck[i] by {
                assert(b.subrange(pos, pos + whole.len() as int)[i] == whole[i]);
                assert(whole[i] == (ck + cv)[i]);
            }
        }
        lemma_dec_chars_at_prefix(b, pos, k);
        let p1 = pos + ck.len() as int;
        assert(dec_chars_at(b, pos) == Some((k, p1)));
        assert(b.subrange(p1, p1 + 8) =~= cv) by {
            assert forall|i: int| 0 <= i < 8 implies #[trigger] b.subrange(p1, p1 + 8)[i]
                == cv[i] by {
                assert(b.subrange(pos, pos + whole.len() as int)[ck.len() + i] == whole[ck.len()
                    + i]);
                assert(whole[ck.len() + i] == (ck + cv)[ck.len() + i]);
            }
        }
        lemma_dec_u64_at_prefix(b, p1, v);
        let p2 = p1 + 8;
        assert(valid_entries(rest)) by {
            assert forall|i: int|
                0 <= i < rest.len() implies is_ascii_chars((#[trigger] rest[i]).0) && rest[i].0.len()
                <= u64::MAX by {
                assert(rest[i] == m[i + 1]);
            }
        }
        assert(b.subrange(p2, p2 + renc.len() as int) =~= renc) by {
            assert forall|i: int| 0 <= i < renc.len() implies #[trigger] b.subrange(
                p2,
                p2 + renc.len() as int,
            )[i] == renc[i] by {
                assert(b.subrange(pos, pos + whole.len() as int)[ck.len() + 8 + i] == whole[ck.len()
                    + 8 + i]);
            }
        }
        lemma_dec_entries_at_prefix(b, p2, rest);
        let p3 = p2 + renc.len() as int;
        assert(seq![(k, v)] + rest =~= m);
        assert(p3 == pos + whole.len() as int);
    }
}

/// Whatever a run of entries decodes to is a valid entry run of that
/// length.
pub proof fn lemma_dec_entries_at_valid(b: Seq<u8>, pos: int, count: nat)
    ensures
        match dec_entries_at(b, pos, count) {
            Some((m, p)) => m.len() == count && (count <= u64::MAX ==> valid_entries(m)),
            None => true,
        },
    decreases count,
{
    if count == 0 {
        if dec_entries_at(b, pos, count) is Some {
            assert(valid_entries(Seq::<(Seq<char>, u64)>::empty()));
        }
    } else {
        match dec_chars_at(b, pos) {
            None => {},
            Some((k, p1)) => {
                match dec_u64_at(b, p1) {
                    None => {},
                    Some((v, p2)) => {
                        lemma_dec_entries_at_valid(b, p2, (count - 1) as nat);
                        match dec_entries_at(b, p2, (count - 1) as nat) {
                            None => {},
                            Some((rest, p3)) => {
                                let m = seq![(k, v)] + rest;
                                assert(m.len() == count);
                                if count <= u64::MAX {
                                    let n0 = dec_u64_at(b, pos)->Some_0.0;
                                    let q = dec_u64_at(b, pos)->Some_0.1;
                                    assert(k == Seq::new(n0 as nat, |i: int| b[q + i] as char));
                                    assert(is_ascii_chars(k)) by {
                                        assert forall|j: int|
                                            0 <= j < k.len() implies '\0' <= #[trigger] k[j]
                                            <= '\u{7f}' by {
                                            assert(k[j] == b[q + j] as char);
                                            assert(b[q + j] < 128);
                                        }
                                    }
                                    assert(valid_entries(m)) by {
                                        assert forall|i: int|
                                            0 <= i < m.len() implies is_ascii_chars(
                                            (#[trigger] m[i]).0,
                                        ) && m[i].0.len() <= u64::MAX by {
                                            if i == 0 {
                                                assert(m[0] == (k, v));
                                            } else {
                                                assert(m[i] == rest[i - 1]);
                                            }
                                        }
                                    }
                                }
                            },
                        }
                    },
                }
            },
        }
    }
}

/// The model of a list of owned entries.
pub open spec fn entries_model(s: Seq<(String, u64)>) -> Seq<(Seq<char>, u64)> {
    Seq::new(s.len(), |i: int| (s[i].0@, s[i].1))
}

/// A table of counters keyed by ASCII strings. When a key is bound more
/// than once the latest entry wins, as in [`crate::assoc::lookup`].
#[derive(Debug, Clone)]
pub struct Table {
    pub entries: Vec<(String, u64)>,
}

impl View for Table {
    type V = Seq<(Seq<char>, u64)>;

    open spec fn view(&self) -> Seq<(Seq<char>, u64)> {
        entries_model(self.entries@)
    }
}

/// Reads `count` entries starting at `pos`, following `dec_entries_at`.
fn read_entries(b: &[u8], pos: usize, count: u64) -> (r: Option<(Vec<(String, u64)>, usize)>)
    requires
        pos <= b@.len(),
    ensures
        match r {
            Some((es, p)) => dec_entries_at(b@, pos as int, count as nat) == Some(
                (entries_model(es@), p as int),
            ) && p <= b@.len(),
            None => dec_entries_at(b@, pos as int, count as nat) is None,
        },
    decreases count,
{
    if count == 0 {
        let es: Vec<(String, u64)> = Vec::new();
        proof {
            assert(entries_model(es@) =~= Seq::<(Seq<char>, u64)>::empty());
        }
        Some((es, pos))
    } else {
        match get_chars(b, pos) {
            None => None,
            Some((k, p1)) => match get_u64(b, p1) {
                None => None,
                Some((v, p2)) => match read_entries(b, p2, count - 1) {
                    None => None,
                    Some((es, p3)) => {
                        let ghost tail = entries_model(es@);
                        let mut es = es;
                        es.insert(0, (k, v));
                        proof {
                            assert(entries_model(es@) =~= seq![(k@, v)] + tail);
                        }
                        Some((es, p3))
                    },
                },
            },
        }
    }
}

impl Codec for Table {
    open spec fn valid(m: Seq<(Seq<char>, u64)>) -> bool {
        valid_entries(m)
    }

    open spec fn enc(m: Seq<(Seq<char>, u64)>) -> Seq<u8> {
        enc_table(m)
    }

    open spec fn dec(b: Seq<u8>) -> Option<Seq<(Seq<char>, u64)>> {
        dec_table(b)
    }

    proof fn round_trip(m: Seq<(Seq<char>, u64)>) {
        lemma_auto_spec_u64_to_from_le_bytes();
        let b = enc_table(m);
        let renc = enc_entries(m);
        assert(b.subrange(0, 8) =~= enc_u64(m.len() as u64));
        lemma_dec_u64_at_prefix(b, 0, m.len() as u64);
        assert(b.subrange(8, 8 + renc.len() as int) =~= renc);
        lemma_dec_entries_at_prefix(b, 8, m);
        assert((m.len() as u64) as nat == m.len());
    }

    proof fn dec_valid(b: Seq<u8>) {
        match dec_u64_at(b, 0) {
            None => {},
            Some((n, p)) => {
                lemma_dec_entries_at_valid(b, p, n as nat);
            },
        }
    }

    fn is_valid(&self) -> (r: bool) {
        let n: usize = self.entries.len();
        let mut i: usize = 0;
        while i < n
            invariant
                i <= n,
                n == self.entries@.len(),
                forall|j: int|
                    0 <= j < i ==> is_ascii_chars((#[trigger] self@[j]).0) && self@[j].0.len()
                        <= u64::MAX,
            decreases n - i,
        {
            let e = &self.entries[i];
            if !e.0.as_str().is_ascii() {
                assert(!is_ascii_chars(self@[i as int].0));
                return false;
            }
            let l: usize = e.0.as_str().unicode_len();
            assert(self@[i as int].0.len() == l);
            i += 1;
        }
        true
    }

    fn encode(&self) -> (r: Vec<u8>) {
        let n: usize = self.entries.len();
        let mut out = u64_to_le_bytes(n as u64);
        let mut i: usize = 0;
        while i < n
            invariant
                i <= n,
                n == self.entries@.len(),
                valid_entries(self@),
                out@ == enc_u64(n as u64) + enc_entries(self@.take(i as int)),
            decreases n - i,
        {
            let e = &self.entries[i];
            proof {
                assert(self@[i as int] == (self.entries@[i as int].0@, self.entries@[i as int].1));
                assert(is_ascii_chars(self@[i as int].0));
            }
            put_chars(&mut out, e.0.as_str());
            put_u64(&mut out, e.1);
            proof {
                lemma_enc_entries_push(self@.take(i as int), self@[i as int]);
                assert(self@.take(i as int + 1) =~= self@.take(i as int).push(self@[i as int]));
                assert(out@ =~= enc_u64(n as u64) + enc_entries(self@.take(i as int + 1)));
            }
            i += 1;
        }
        proof {
            assert(self@.take(n as int) =~= self@);
        }
        out
    }

    fn decode(b: &[u8]) -> (r: Option<Table>) {
        match get_u64(b, 0) {
            None => None,
            Some((n, p)) => match read_entries(b, p, n) {
                None => None,
                Some((es, q)) => {
                    if q == b.len() {
                        Some(Table { entries: es })
                    } else {
                        None
                    }
                },
            },
        }
    }
}

impl Table {
    /// An empty table: no key is bound, and the table is a valid codec
    /// subject.
    pub fn new() -> (t: Table)
        ensures
            forall|k: Seq<char>| #[trigger] lookup(t@, k) is None,
            valid_entries(t@),
    {
        let t = Table { entries: Vec::new() };
        proof {
            assert(t@ =~= Seq::<(Seq<char>, u64)>::empty());
        }
        t
    }

    /// The counter bound to `key`, or `None` when the key is unbound.
    pub fn get(&self, key: &str) -> (r: Option<u64>)
        ensures
            r == lookup(self@, key@),
    {
        let key_s = key.to_owned();
        let mut r: Option<u64> = None;
        let mut i: usize = 0;
        while i < self.entries.len()
            invariant
                i <= self.entries@.len(),
                key_s@ == key@,
                r == lookup(entries_model(self.entries@.take(i as int)), key@),
            decreases self.entries@.len() - i,
        {
            let e = &self.entries[i];
            proof {
                let prefix = entries_model(self.entries@.take(i as int));
                let entry = (self.entries@[i as int].0@, self.entries@[i as int].1);
                assert(self.entries@.take(i as int + 1) =~= self.entries@.take(i as int).push(
                    self.entries@[i as int],
                ));
                assert(entries_model(self.entries@.take(i as int + 1)) =~= prefix.push(entry));
                lemma_lookup_push(prefix, entry, key@);
            }
            if e.0 == key_s {
                r = Some(e.1);
            }
            i += 1;
        }
        proof {
            assert(self.entries@.take(self.entries@.len() as int) =~= self.entries@);
        }
        r
    }

    /// Binds `key` to `value`, dropping any earlier binding; every other
    /// key keeps its binding, and a valid table stays valid.
    pub fn insert(&mut self, key: &str, value: u64)
        requires
            key.is_ascii(),
        ensures
            forall|n: Seq<char>| #[trigger] lookup(final(self)@, n) == (if n == key@ {
                Some(value)
            } else {
                lookup(old(self)@, n)
            }),
            valid_entries(old(self)@) ==> valid_entries(final(self)@),
    {
        let key_s = key.to_owned();
        let key_len: usize = key.unicode_len();
        let ghost orig: Seq<(Seq<char>, u64)> = entries_model(self.entries@);
        let ghost mut done: int = 0;
        let mut kept: Vec<(String, u64)> = Vec::new();
        while self.entries.len() > 0
            invariant
                key_s@ == key@,
                0 <= done,
                done + self.entries@.len() == orig.len(),
                entries_model(self.entries@) =~= orig.skip(done),
                forall|n: Seq<char>| #[trigger] lookup(entries_model(kept@), n) == (if n == key@ {
                    None::<u64>
                } else {
                    lookup(orig.take(done), n)
                }),
                entries_model(kept@).len() <= done,
                valid_entries(orig) ==> valid_entries(entries_model(kept@)),
            decreases self.entries@.len(),
        {
            let ghost before = self.entries@;
            let e = self.entries.remove(0);
            proof {
                assert(entries_model(before)[0] == orig.skip(done)[0]);
                assert((e.0@, e.1) == orig[done]);
                assert(orig.take(done + 1) =~= orig.take(done).push(orig[done]));
                assert(entries_model(self.entries@) =~= orig.skip(done + 1)) by {
                    assert forall|j: int|
                        0 <= j < self.entries@.len() implies #[trigger] entries_model(
                        self.entries@,
                    )[j] == orig.skip(done + 1)[j] by {
                        assert(self.entries@[j] == before[j + 1]);
                        assert(entries_model(before)[j + 1] == orig.skip(done)[j + 1]);
                        assert(orig.skip(done)[j + 1] == orig[done + 1 + j]);
                    }
                }
                assert forall|n: Seq<char>| #[trigger] lookup(orig.take(done + 1), n) == (if (
                orig[done].0 == n) {
                    Some(orig[done].1)
                } else {
                    lookup(orig.take(done), n)
                }) by {
                    lemma_lookup_push(orig.take(done), orig[done], n);
                }
            }
            let keep = !(e.0 == key_s);
            if keep {
                let ghost kept_before = entries_model(kept@);
                kept.push(e);
                proof {
                    assert(entries_model(kept@) =~= kept_before.push((e.0@, e.1)));
                    assert forall|n: Seq<char>| #[trigger] lookup(entries_model(kept@), n) == (if n
                        == key@ {
                        None::<u64>
                    } else {
                        lookup(orig.take(done + 1), n)
                    }) by {
                        lemma_lookup_push(kept_before, (e.0@, e.1), n);
                    }
                    if valid_entries(orig) {
                        assert(entries_model(kept@).len() <= orig.len());
                        assert(valid_entries(entries_model(kept@))) by {
                            assert forall|j: int|
                                0 <= j < entries_model(kept@).len() implies is_ascii_chars(
                                (#[trigger] entries_model(kept@)[j]).0,
                            ) && entries_model(kept@)[j].0.len() <= u64::MAX by {
                                if j < kept_before.len() {
                                    assert(entries_model(kept@)[j] == kept_before[j]);
                                } else {
                                    assert(entries_model(kept@)[j] == orig[done]);
                                }
                            }
                        }
                    }
                }
            }
            proof {
                done = done + 1;
            }
        }
        proof {
            assert(orig.take(done) =~= orig);
        }
        let ghost kept_final = entries_model(kept@);
        kept.push((key_s, value));
        let n_after: usize = kept.len();
        self.entries = kept;
        proof {
            assert(self@ =~= kept_final.push((key@, value)));
            assert(self@.len() == n_after);
            assert(self@.len() <= u64::MAX);
            assert forall|n: Seq<char>| #[trigger] lookup(self@, n) == (if n == key@ {
                Some(value)
            } else {
                lookup(orig, n)
            }) by {
                lemma_lookup_push(kept_final, (key@, value), n);
            }
            if valid_entries(orig) {
                assert(valid_entries(self@)) by {
                    assert forall|j: int|
                        0 <= j < self@.len() implies is_ascii_chars((#[trigger] self@[j]).0)
                        && self@[j].0.len() <= u64::MAX by {
                        if j < kept_final.len() {
                            assert(self@[j] == kept_final[j]);
                        } else {
                            assert(self@[j] == (key@, value));
                            assert(key@.len() == key_len);
                        }
                    }
                }
            }
        }
    }
}

} // verus!
