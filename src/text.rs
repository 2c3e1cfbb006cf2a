//! Text as its UTF-8 bytes behind a count of them: a one-byte count for
//! `String`, a two-byte count for `WideText`.
use crate::bigend::{be, from_be, lemma_be_len, lemma_pow256_mono, lemma_pow256_values};
use crate::bytes::Bytes;
use crate::codec::{tail, Deserialize, Serialize};
use crate::error::SerializeError;
use crate::primitive::{decode_uint, lemma_decode_uint, lemma_decode_uint_short, read_uint};
use vstd::prelude::*;
use vstd::utf8::{
    decode_utf8, encode_utf8, encode_utf8_decode_utf8, encode_utf8_valid_utf8, valid_utf8,
};

verus! {

/// The most bytes that a `String`'s one-byte count holds.
pub const MAX_SHORT_TEXT: usize = 255;

/// The most bytes that a `WideText`'s two-byte count holds.
pub const MAX_WIDE_TEXT: usize = 65535;

/// What the front of `s` gives as text behind a `w`-byte count: the
/// characters and the bytes taken, or the failure.
pub open spec fn decode_text(s: Seq<u8>, w: nat) -> Result<(Seq<char>, nat), SerializeError> {
    match decode_uint(s, w) {
        Err(e) => Err(e),
        Ok((n, _)) => if s.len() < w + n {
            Err(SerializeError::TruncatedInput)
        } else if valid_utf8(s.subrange(w as int, (w + n) as int)) {
            Ok((decode_utf8(s.subrange(w as int, (w + n) as int)), w + n))
        } else {
            Err(SerializeError::InvalidEncoding)
        },
    }
}

/// The bytes of the characters `c` behind a `w`-byte count of them.
pub open spec fn encode_text(c: Seq<char>, w: nat) -> Seq<u8> {
    be(encode_utf8(c).len(), w) + encode_utf8(c)
}

/// Relies on `String::from_utf8`: it succeeds exactly on valid UTF-8, and the
/// text then holds the characters that the bytes encode.
#[verifier::external_body]
fn string_from_utf8(bytes: Vec<u8>) -> (r: Option<String>)
    ensures
        r is Some <==> valid_utf8(bytes@),
        r matches Some(t) ==> t@ == decode_utf8(bytes@),
{
    String::from_utf8(bytes).ok()
}

proof fn lemma_decode_encode_text(c: Seq<char>, w: nat, rest: Seq<u8>)
    requires
        w == 1 || w == 2,
        encode_utf8(c).len() < crate::bigend::pow256(w),
    ensures
        decode_text(encode_text(c, w) + rest, w) == Ok::<(Seq<char>, nat), SerializeError>(
            (c, encode_text(c, w).len()),
        ),
{
    let b = encode_utf8(c);
    let s = encode_text(c, w) + rest;
    lemma_be_len(b.len(), w);
    assert(s =~= be(b.len(), w) + (b + rest));
    lemma_decode_uint(b.len(), w, b + rest);
    assert(s.subrange(w as int, (w + b.len()) as int) =~= b);
    encode_utf8_valid_utf8(c);
    encode_utf8_decode_utf8(c);
}

proof fn lemma_decode_text_truncated(c: Seq<char>, w: nat, n: nat)
    requires
        w == 1 || w == 2,
        encode_utf8(c).len() < crate::bigend::pow256(w),
        n < encode_text(c, w).len(),
    ensures
        decode_text(encode_text(c, w).take(n as int), w) == Err::<(Seq<char>, nat), SerializeError>(
            SerializeError::TruncatedInput,
        ),
{
    let b = encode_utf8(c);
    let t = encode_text(c, w).take(n as int);
    lemma_be_len(b.len(), w);
    if n < w {
        lemma_decode_uint_short(t, w);
    } else {
        assert(t =~= be(b.len(), w) + b.take(n - w));
        lemma_decode_uint(b.len(), w, b.take(n - w));
    }
}

/// Decoded text fits the count that it came behind.
proof fn lemma_decoded_text_fits(s: Seq<u8>, w: nat)
    requires
        decode_text(s, w) is Ok,
    ensures
        encode_utf8(decode_text(s, w)->Ok_0.0).len() < crate::bigend::pow256(w),
{
    crate::bigend::lemma_from_be_bound(s.take(w as int));
    let n = from_be(s.take(w as int));
    vstd::utf8::decode_utf8_encode_utf8(s.subrange(w as int, (w + n) as int));
}

/// Appends `t` as text behind a `w`-byte count.
fn serialize_text(t: &str, w: usize, buf: &mut Bytes)
    requires
        w == 1 || w == 2,
        encode_utf8(t@).len() < crate::bigend::pow256(w as nat),
    ensures
        final(buf)@ == old(buf)@ + encode_text(t@, w as nat),
        final(buf).cursor() == old(buf).cursor(),
{
    let b = t.as_bytes();
    let n = b.len();
    buf.push_be(n as u64, w);
    let ghost start = buf@;
    let mut i: usize = 0;
    while i < n
        invariant
            n == b@.len(),
            i <= n,
            buf@ == start + b@.take(i as int),
            buf.cursor() == old(buf).cursor(),
        decreases n - i,
    {
        buf.push(b[i]);
        i = i + 1;
        assert(buf@ =~= start + b@.take(i as int));
    }
    assert(b@.take(n as int) =~= b@);
    assert(buf@ =~= old(buf)@ + encode_text(t@, w as nat));
}

/// Decodes text behind a `w`-byte count at `pos`.
fn deserialize_text(buf: &Bytes, pos: usize, w: usize) -> (r: Result<
    (String, usize),
    SerializeError,
>)
    requires
        w == 1 || w == 2,
    ensures
        pos > buf@.len() ==> r matches Err(SerializeError::TruncatedInput),
        pos <= buf@.len() ==> match r {
            Ok((t, end)) => {
                &&& pos <= end <= buf@.len()
                &&& decode_text(tail(buf@, pos as int), w as nat) == Ok::<
                    (Seq<char>, nat),
                    SerializeError,
                >((t@, (end - pos) as nat))
            },
            Err(e) => decode_text(tail(buf@, pos as int), w as nat) == Err::<
                (Seq<char>, nat),
                SerializeError,
            >(e),
        },
{
    proof {
        lemma_pow256_values();
        lemma_pow256_mono(w as nat, 2);
    }
    let (n, at) = match read_uint(buf, pos, w) {
        Ok(x) => x,
        Err(e) => return Err(e),
    };
    let len = buf.len();
    if len - at < n as usize {
        return Err(SerializeError::TruncatedInput);
    }
    let end = at + n as usize;
    let bytes = buf.to_vec_range(at, end);
    assert(tail(buf@, pos as int).subrange(w as int, (w + n) as int) =~= bytes@);
    match string_from_utf8(bytes) {
        Some(t) => Ok((t, end)),
        None => Err(SerializeError::InvalidEncoding),
    }
}

impl Serialize for String {
    /// At most `MAX_SHORT_TEXT` bytes of UTF-8.
    open spec fn spec_encodable(&self) -> bool {
        encode_utf8(self@).len() <= MAX_SHORT_TEXT
    }

    /// A one-byte count, then the UTF-8 bytes.
    open spec fn spec_encode(&self) -> Seq<u8> {
        encode_text(self@, 1)
    }

    fn can_serialize(&self) -> (r: bool) {
        self.as_str().as_bytes().len() <= MAX_SHORT_TEXT
    }

    fn size(&self) -> (r: usize) {
        proof {
            lemma_be_len(encode_utf8(self@).len(), 1);
        }
        1 + self.as_str().as_bytes().len()
    }

    fn serialize(&self, buf: &mut Bytes) {
        proof {
            lemma_pow256_values();
        }
        serialize_text(self.as_str(), 1, buf);
    }

    proof fn lemma_encode_by_model(a: &String, b: &String) {
    }
}

impl Deserialize for String {
    /// Bytes that are not UTF-8 are refused.
    open spec fn spec_decode(s: Seq<u8>) -> Result<(Seq<char>, nat), SerializeError> {
        decode_text(s, 1)
    }

    fn deserialize_from(buf: &Bytes, pos: usize) -> (r: Result<(String, usize), SerializeError>) {
        deserialize_text(buf, pos, 1)
    }

    proof fn lemma_decode_encode(v: &String, rest: Seq<u8>) {
        lemma_pow256_values();
        lemma_decode_encode_text(v@, 1, rest);
    }

    proof fn lemma_decode_truncated(v: &String, n: nat) {
        lemma_pow256_values();
        lemma_decode_text_truncated(v@, 1, n);
    }

    proof fn lemma_decoded_encodable(s: Seq<u8>, v: &String) {
        lemma_pow256_values();
        lemma_decoded_text_fits(s, 1);
    }
}

/// Text that may run past `MAX_SHORT_TEXT` bytes: written behind a two-byte
/// count instead of one.
#[derive(Debug)]
pub struct WideText {
    pub text: String,
}

impl DeepView for WideText {
    type V = Seq<char>;

    open spec fn deep_view(&self) -> Seq<char> {
        self.text@
    }
}

impl Serialize for WideText {
    /// At most `MAX_WIDE_TEXT` bytes of UTF-8.
    open spec fn spec_encodable(&self) -> bool {
        encode_utf8(self.text@).len() <= MAX_WIDE_TEXT
    }

    /// A two-byte count, then the UTF-8 bytes.
    open spec fn spec_encode(&self) -> Seq<u8> {
        encode_text(self.text@, 2)
    }

    fn can_serialize(&self) -> (r: bool) {
        self.text.as_str().as_bytes().len() <= MAX_WIDE_TEXT
    }

    fn size(&self) -> (r: usize) {
        proof {
            lemma_be_len(encode_utf8(self.text@).len(), 2);
        }
        2 + self.text.as_str().as_bytes().len()
    }

    fn serialize(&self, buf: &mut Bytes) {
        proof {
            lemma_pow256_values();
        }
        serialize_text(self.text.as_str(), 2, buf);
    }

    proof fn lemma_encode_by_model(a: &WideText, b: &WideText) {
    }
}

impl Deserialize for WideText {
    /// Bytes that are not UTF-8 are refused.
    open spec fn spec_decode(s: Seq<u8>) -> Result<(Seq<char>, nat), SerializeError> {
        decode_text(s, 2)
    }

    fn deserialize_from(buf: &Bytes, pos: usize) -> (r: Result<(WideText, usize), SerializeError>) {
        match deserialize_text(buf, pos, 2) {
            Ok((text, end)) => Ok((WideText { text }, end)),
            Err(e) => Err(e),
        }
    }

    proof fn lemma_decode_encode(v: &WideText, rest: Seq<u8>) {
        lemma_pow256_values();
        lemma_decode_encode_text(v.text@, 2, rest);
    }

    proof fn lemma_decode_truncated(v: &WideText, n: nat) {
        lemma_pow256_values();
        lemma_decode_text_truncated(v.text@, 2, n);
    }

    proof fn lemma_decoded_encodable(s: Seq<u8>, v: &WideText) {
        lemma_pow256_values();
        lemma_decoded_text_fits(s, 2);
    }
}

} // verus!
