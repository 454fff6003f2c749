//! The binary codec: fixed-width integers, length-prefixed ASCII strings,
//! and the [`Codec`] trait tying an encodable type to its mathematical
//! model, with the round-trip law `dec(enc(m)) == Some(m)`.

use vstd::prelude::*;
use vstd::bytes::{
    spec_u64_from_le_bytes, spec_u64_to_le_bytes, lemma_auto_spec_u64_to_from_le_bytes,
    u64_from_le_bytes, u64_to_le_bytes,
};
use vstd::slice::slice_subrange;

verus! {

/// The eight-byte little-endian encoding of `x`.
pub open spec fn enc_u64(x: u64) -> Seq<u8> {
    spec_u64_to_le_bytes(x)
}

/// Reads an eight-byte little-endian integer at `pos`; `None` when fewer
/// than eight bytes remain.
pub open spec fn dec_u64_at(b: Seq<u8>, pos: int) -> Option<(u64, int)> {
    if 0 <= pos && pos + 8 <= b.len() {
        Some((spec_u64_from_le_bytes(b.subrange(pos, pos + 8)), pos + 8))
    } else {
        None
    }
}

/// Reading back an encoded integer recovers it and stops right after it.
pub proof fn lemma_dec_u64_at_prefix(b: Seq<u8>, pos: int, x: u64)
    requires
        0 <= pos,
        pos + 8 <= b.len(),
        b.subrange(pos, pos + 8) == enc_u64(x),
    ensures
        dec_u64_at(b, pos) == Some((x, pos + 8)),
{
    lemma_auto_spec_u64_to_from_le_bytes();
}

/// Appends the eight-byte encoding of `x` to `out`.
pub fn put_u64(out: &mut Vec<u8>, x: u64)
    ensures
        final(out)@ == old(out)@ + enc_u64(x),
{
    let mut tail = u64_to_le_bytes(x);
    out.append(&mut tail);
}

/// Reads an eight-byte integer at `pos`, following `dec_u64_at`.
pub fn get_u64(b: &[u8], pos: usize) -> (r: Option<(u64, usize)>)
    ensures
        match r {
            Some((x, p)) => dec_u64_at(b@, pos as int) == Some((x, p as int)),
            None => dec_u64_at(b@, pos as int) is None,
        },
{
    if pos <= b.len() && b.len() - pos >= 8 {
        let chunk = slice_subrange(b, pos, pos + 8);
        let x = u64_from_le_bytes(chunk);
        Some((x, pos + 8))
    } else {
        None
    }
}

/// The encoding of an ASCII string: its length, then one byte per character.
pub open spec fn enc_chars(s: Seq<char>) -> Seq<u8> {
    enc_u64(s.len() as u64) + Seq::new(s.len(), |i: int| s[i] as u8)
}

/// Reads a length-prefixed ASCII string at `pos`; `None` when the prefix
/// overruns the input or a byte is not ASCII.
pub open spec fn dec_chars_at(b: Seq<u8>, pos: int) -> Option<(Seq<char>, int)> {
    match dec_u64_at(b, pos) {
        None => None,
        Some((n, p)) => if p + n <= b.len()
            && (forall|i: int| p <= i < p + n ==> b[i] < 128) {
            Some((Seq::new(n as nat, |i: int| b[p + i] as char), p + n))
        } else {
            None
        },
    }
}

/// Reading back an encoded ASCII string recovers it and stops right after it.
pub proof fn lemma_dec_chars_at_prefix(b: Seq<u8>, pos: int, s: Seq<char>)
    requires
        vstd::utf8::is_ascii_chars(s),
        s.len() <= u64::MAX,
        0 <= pos,
        pos + enc_chars(s).len() <= b.len(),
        b.subrange(pos, pos + enc_chars(s).len() as int) == enc_chars(s),
    ensures
        dec_chars_at(b, pos) == Some((s, pos + 8 + s.len())),
{
    lemma_auto_spec_u64_to_from_le_bytes();
    let e = enc_chars(s);
    assert(e.len() == 8 + s.len());
    assert(b.subrange(pos, pos + 8) =~= enc_u64(s.len() as u64)) by {
        assert forall|i: int| 0 <= i < 8 implies #[trigger] b.subrange(pos, pos + 8)[i]
            == enc_u64(s.len() as u64)[i] by {
            assert(b.subrange(pos, pos + e.len() as int)[i] == e[i]);
        }
    }
    lemma_dec_u64_at_prefix(b, pos, s.len() as u64);
    let p = pos + 8;
    let n: int = s.len() as int;
    assert forall|i: int| 0 <= i < n implies b[p + i] == s[i] as u8 by {
        assert(b.subrange(pos, pos + e.len() as int)[8 + i] == e[8 + i]);
    }
    assert forall|i: int| p <= i < p + n implies b[i] < 128 by {
        assert(b[i] == s[i - p] as u8);
        assert('\0' <= s[i - p] <= '\u{7f}');
    }
    assert(Seq::new(n as nat, |i: int| b[p + i] as char) =~= s) by {
        assert forall|i: int| 0 <= i < n implies b[p + i] as char == s[i] by {
            assert(b[p + i] == s[i] as u8);
            assert('\0' <= s[i] <= '\u{7f}');
        }
    }
}

/// Relies on `String::from_utf8`: ASCII bytes are valid UTF-8 and decode
/// to exactly one character per byte, with the same code point.
#[verifier::external_body]
fn string_from_ascii(bytes: Vec<u8>) -> (r: String)
    requires
        forall|i: int| 0 <= i < bytes@.len() ==> bytes@[i] < 128,
    ensures
        r@.len() == bytes@.len(),
        forall|i: int| 0 <= i < bytes@.len() ==> r@[i] == bytes@[i] as char,
{
    String::from_utf8(bytes).unwrap()
}

/// Appends the length-prefixed encoding of the ASCII string `s` to `out`.
pub fn put_chars(out: &mut Vec<u8>, s: &str)
    requires
        s.is_ascii(),
    ensures
        final(out)@ == old(out)@ + enc_chars(s@),
{
    proof {
        vstd::string::is_ascii_spec_bytes(s);
    }
    let n: usize = s.unicode_len();
    put_u64(out, n as u64);
    let mut body = s.as_bytes_vec();
    out.append(&mut body);
    assert(final(out)@ =~= old(out)@ + enc_chars(s@));
}

/// Reads a length-prefixed ASCII string at `pos`, following `dec_chars_at`.
pub fn get_chars(b: &[u8], pos: usize) -> (r: Option<(String, usize)>)
    ensures
        match r {
            Some((s, p)) => dec_chars_at(b@, pos as int) == Some((s@, p as int)) && p
                <= b@.len(),
            None => dec_chars_at(b@, pos as int) is None,
        },
{
    match get_u64(b, pos) {
        None => None,
        Some((n, p)) => {
            if n > (b.len() - p) as u64 {
                assert(p + n > b@.len());
                None
            } else {
                let n_us: usize = n as usize;
                let len: usize = b.len();
                let mut body: Vec<u8> = Vec::new();
                let mut i: usize = 0;
                while i < n_us
                    invariant
                        i <= n_us,
                        p + n_us <= len,
                        len == b@.len(),
                        n_us == n,
                        dec_u64_at(b@, pos as int) == Some((n, p as int)),
                        body@.len() == i,
                        forall|j: int| 0 <= j < i ==> body@[j] == b@[p + j] && b@[p + j] < 128,
                    decreases n_us - i,
                {
                    let byte = b[p + i];
                    if byte >= 128 {
                        assert(b@[p + i] >= 128);
                        return None;
                    }
                    body.push(byte);
                    i += 1;
                }
                assert forall|j: int| p <= j < p + n implies b@[j] < 128 by {
                    assert(body@[j - p] == b@[j] && b@[j] < 128);
                }
                let s = string_from_ascii(body);
                assert(s@ =~= Seq::new(n as nat, |j: int| b@[p + j] as char));
                Some((s, p + n_us))
            }
        },
    }
}

/// A type the durable container can carry: its values abstract to a
/// mathematical model (the type's view), and the codec is a pair of
/// functions between models and byte sequences that invert each other
/// on every valid model.
pub trait Codec: View + Sized {
    /// The models the codec carries faithfully; encoding is only claimed
    /// exact for these.
    spec fn valid(m: Self::V) -> bool;

    /// The bytes that encode the model `m`.
    spec fn enc(m: Self::V) -> Seq<u8>;

    /// The model that the bytes `b` decode to, if any.
    spec fn dec(b: Seq<u8>) -> Option<Self::V>;

    /// The round-trip law: every valid model survives an encode followed
    /// by a decode.
    proof fn round_trip(m: Self::V)
        requires
            Self::valid(m),
        ensures
            Self::dec(Self::enc(m)) == Some(m),
    ;

    /// Anything that decodes at all decodes to a valid model.
    proof fn dec_valid(b: Seq<u8>)
        ensures
            match Self::dec(b) {
                Some(m) => Self::valid(m),
                None => true,
            },
    ;

    /// Decides validity of the value at hand.
    fn is_valid(&self) -> (r: bool)
        ensures
            r == Self::valid(self@),
    ;

    /// Encodes the value to bytes.
    fn encode(&self) -> (r: Vec<u8>)
        requires
            Self::valid(self@),
        ensures
            r@ == Self::enc(self@),
    ;

    /// Decodes bytes back to a value; `None` on truncated, corrupted or
    /// mismatched input.
    fn decode(b: &[u8]) -> (r: Option<Self>)
        ensures
            match r {
                Some(v) => Self::dec(b@) == Some(v@),
                None => Self::dec(b@) is None,
            },
    ;
}

impl Codec for u64 {
    open spec fn valid(m: u64) -> bool {
        true
    }

    open spec fn enc(m: u64) -> Seq<u8> {
        enc_u64(m)
    }

    open spec fn dec(b: Seq<u8>) -> Option<u64> {
        if b.len() == 8 {
            Some(spec_u64_from_le_bytes(b))
        } else {
            None
        }
    }

    proof fn round_trip(m: u64) {
        lemma_auto_spec_u64_to_from_le_bytes();
    }

    proof fn dec_valid(b: Seq<u8>) {
    }

    fn is_valid(&self) -> (r: bool) {
        true
    }

    fn encode(&self) -> (r: Vec<u8>) {
        u64_to_le_bytes(*self)
    }

    fn decode(b: &[u8]) -> (r: Option<u64>) {
        if b.len() == 8 {
            Some(u64_from_le_bytes(b))
        } else {
            None
        }
    }
}

} // verus!
