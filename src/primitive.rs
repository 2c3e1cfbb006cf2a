//! Fixed-width codecs: integers big-endian (signed ones in two's complement),
//! `bool` and ASCII `char` as one byte.
use crate::bigend::{
    be, from_be, lemma_be_len, lemma_from_be_be, lemma_from_be_bound, lemma_pow256_mono,
    lemma_pow256_values, lemma_untwos_range, lemma_untwos_twos, pow256, twos, untwos,
};
use crate::bytes::Bytes;
use crate::codec::{tail, Deserialize, Serialize};
use crate::error::SerializeError;
use vstd::prelude::*;

verus! {

/// What the front of `s` gives as a `w`-byte unsigned number.
pub open spec fn decode_uint(s: Seq<u8>, w: nat) -> Result<(nat, nat), SerializeError> {
    if s.len() < w {
        Err(SerializeError::TruncatedInput)
    } else {
        Ok((from_be(s.take(w as int)), w))
    }
}

/// The `w` bytes of a number that fits, whatever follows, read back as it.
pub proof fn lemma_decode_uint(n: nat, w: nat, rest: Seq<u8>)
    requires
        n < pow256(w),
    ensures
        be(n, w).len() == w,
        decode_uint(be(n, w) + rest, w) == Ok::<(nat, nat), SerializeError>((n, w)),
{
    lemma_be_len(n, w);
    assert((be(n, w) + rest).take(w as int) =~= be(n, w));
    lemma_from_be_be(n, w);
}

/// Fewer than `w` bytes do not make a `w`-byte number.
pub proof fn lemma_decode_uint_short(s: Seq<u8>, w: nat)
    requires
        s.len() < w,
    ensures
        decode_uint(s, w) == Err::<(nat, nat), SerializeError>(SerializeError::TruncatedInput),
{
}

/// Reads a `w`-byte unsigned number at `pos`.
pub(crate) fn read_uint(buf: &Bytes, pos: usize, w: usize) -> (r: Result<
    (u64, usize),
    SerializeError,
>)
    requires
        w <= 8,
    ensures
        pos > buf@.len() ==> r matches Err(SerializeError::TruncatedInput),
        pos <= buf@.len() ==> match r {
            Ok((n, end)) => {
                &&& end == pos + w
                &&& end <= buf@.len()
                &&& decode_uint(tail(buf@, pos as int), w as nat) == Ok::<
                    (nat, nat),
                    SerializeError,
                >((n as nat, w as nat))
                &&& (n as nat) < pow256(w as nat)
            },
            Err(e) => decode_uint(tail(buf@, pos as int), w as nat) == Err::<
                (nat, nat),
                SerializeError,
            >(e),
        },
{
    let len = buf.len();
    if pos > len || len - pos < w {
        return Err(SerializeError::TruncatedInput);
    }
    let n = buf.read_be(pos, w);
    proof {
        assert(tail(buf@, pos as int).take(w as int) =~= buf@.subrange(pos as int, pos + w));
        lemma_from_be_bound(buf@.subrange(pos as int, pos + w));
    }
    Ok((n, pos + w))
}

/// `pow256(w)` for a width of at most eight bytes.
fn pow256_exec(w: usize) -> (r: u128)
    requires
        w <= 8,
    ensures
        r == pow256(w as nat),
{
    proof {
        lemma_pow256_values();
    }
    let mut p: u128 = 1;
    let mut i: usize = 0;
    while i < w
        invariant
            i <= w <= 8,
            p == pow256(i as nat),
        decreases w - i,
    {
        proof {
            lemma_pow256_mono(i as nat, 8);
            lemma_pow256_values();
        }
        p = p * 256;
        i = i + 1;
    }
    p
}

/// The two's complement form of `x` in `w` bytes.
pub(crate) fn to_twos(x: i64, w: usize) -> (r: u64)
    requires
        1 <= w <= 8,
        -pow256(w as nat) <= 2 * x < pow256(w as nat),
    ensures
        r == twos(x as int, w as nat),
{
    proof {
        lemma_pow256_values();
        lemma_pow256_mono(w as nat, 8);
    }
    let p = pow256_exec(w);
    if x < 0 {
        (x as i128 + p as i128) as u64
    } else {
        x as u64
    }
}

/// The signed number that `n`, read as `w` bytes of two's complement, stands for.
pub(crate) fn from_twos(n: u64, w: usize) -> (r: i64)
    requires
        1 <= w <= 8,
        n < pow256(w as nat),
    ensures
        r == untwos(n as nat, w as nat),
{
    proof {
        lemma_pow256_values();
        lemma_pow256_mono(w as nat, 8);
    }
    let p = pow256_exec(w);
    if 2 * (n as u128) >= p {
        (n as i128 - p as i128) as i64
    } else {
        n as i64
    }
}

impl Serialize for u8 {
    open spec fn spec_encodable(&self) -> bool {
        true
    }

    open spec fn spec_encode(&self) -> Seq<u8> {
        be(*self as nat, 1)
    }

    fn can_serialize(&self) -> (r: bool) {
        true
    }

    fn size(&self) -> (r: usize) {
        proof {
            lemma_be_len(*self as nat, 1);
        }
        1
    }

    fn serialize(&self, buf: &mut Bytes) {
        buf.push_be(*self as u64, 1);
    }

    proof fn lemma_encode_by_model(a: &u8, b: &u8) {
    }
}

impl Deserialize for u8 {
    open spec fn spec_decode(s: Seq<u8>) -> Result<(u8, nat), SerializeError> {
        match decode_uint(s, 1) {
            Ok((n, w)) => Ok((n as u8, w)),
            Err(e) => Err(e),
        }
    }

    fn deserialize_from(buf: &Bytes, pos: usize) -> (r: Result<(u8, usize), SerializeError>) {
        proof {
            lemma_pow256_values();
        }
        match read_uint(buf, pos, 1) {
            Ok((n, end)) => Ok((n as u8, end)),
            Err(e) => Err(e),
        }
    }

    proof fn lemma_decode_encode(v: &u8, rest: Seq<u8>) {
        lemma_pow256_values();
        lemma_decode_uint(*v as nat, 1, rest);
    }

    proof fn lemma_decode_truncated(v: &u8, n: nat) {
        lemma_be_len(*v as nat, 1);
    }

    proof fn lemma_decoded_encodable(s: Seq<u8>, v: &u8) {
    }
}

impl Serialize for u16 {
    open spec fn spec_encodable(&self) -> bool {
        true
    }

    open spec fn spec_encode(&self) -> Seq<u8> {
        be(*self as nat, 2)
    }

    fn can_serialize(&self) -> (r: bool) {
        true
    }

    fn size(&self) -> (r: usize) {
        proof {
            lemma_be_len(*self as nat, 2);
        }
        2
    }

    fn serialize(&self, buf: &mut Bytes) {
        buf.push_be(*self as u64, 2);
    }

    proof fn lemma_encode_by_model(a: &u16, b: &u16) {
    }
}

impl Deserialize for u16 {
    open spec fn spec_decode(s: Seq<u8>) -> Result<(u16, nat), SerializeError> {
        match decode_uint(s, 2) {
            Ok((n, w)) => Ok((n as u16, w)),
            Err(e) => Err(e),
        }
    }

    fn deserialize_from(buf: &Bytes, pos: usize) -> (r: Result<(u16, usize), SerializeError>) {
        proof {
            lemma_pow256_values();
        }
        match read_uint(buf, pos, 2) {
            Ok((n, end)) => Ok((n as u16, end)),
            Err(e) => Err(e),
        }
    }

    proof fn lemma_decode_encode(v: &u16, rest: Seq<u8>) {
        lemma_pow256_values();
        lemma_decode_uint(*v as nat, 2, rest);
    }

    proof fn lemma_decode_truncated(v: &u16, n: nat) {
        lemma_be_len(*v as nat, 2);
    }

    proof fn lemma_decoded_encodable(s: Seq<u8>, v: &u16) {
    }
}

impl Serialize for i16 {
    open spec fn spec_encodable(&self) -> bool {
        true
    }

    open spec fn spec_encode(&self) -> Seq<u8> {
        be(twos(*self as int, 2), 2)
    }

    fn can_serialize(&self) -> (r: bool) {
        true
    }

    fn size(&self) -> (r: usize) {
        proof {
            lemma_be_len(twos(*self as int, 2), 2);
        }
        2
    }

    fn serialize(&self, buf: &mut Bytes) {
        proof {
            lemma_pow256_values();
        }
        buf.push_be(to_twos(*self as i64, 2), 2);
    }

    proof fn lemma_encode_by_model(a: &i16, b: &i16) {
    }
}

impl Deserialize for i16 {
    open spec fn spec_decode(s: Seq<u8>) -> Result<(i16, nat), SerializeError> {
        match decode_uint(s, 2) {
            Ok((n, w)) => Ok((untwos(n, 2) as i16, w)),
            Err(e) => Err(e),
        }
    }

    fn deserialize_from(buf: &Bytes, pos: usize) -> (r: Result<(i16, usize), SerializeError>) {
        proof {
            lemma_pow256_values();
        }
        match read_uint(buf, pos, 2) {
            Ok((n, end)) => {
                proof {
                    lemma_untwos_range(n as nat, 2);
                }
                Ok((from_twos(n, 2) as i16, end))
            },
            Err(e) => Err(e),
        }
    }

    proof fn lemma_decode_encode(v: &i16, rest: Seq<u8>) {
        lemma_pow256_values();
        lemma_untwos_twos(*v as int, 2);
        lemma_decode_uint(twos(*v as int, 2), 2, rest);
    }

    proof fn lemma_decode_truncated(v: &i16, n: nat) {
        lemma_be_len(twos(*v as int, 2), 2);
    }

    proof fn lemma_decoded_encodable(s: Seq<u8>, v: &i16) {
    }
}

impl Serialize for u32 {
    open spec fn spec_encodable(&self) -> bool {
        true
    }

    open spec fn spec_encode(&self) -> Seq<u8> {
        be(*self as nat, 4)
    }

    fn can_serialize(&self) -> (r: bool) {
        true
    }

    fn size(&self) -> (r: usize) {
        proof {
            lemma_be_len(*self as nat, 4);
        }
        4
    }

    fn serialize(&self, buf: &mut Bytes) {
        buf.push_be(*self as u64, 4);
    }

    proof fn lemma_encode_by_model(a: &u32, b: &u32) {
    }
}

impl Deserialize for u32 {
    open spec fn spec_decode(s: Seq<u8>) -> Result<(u32, nat), SerializeError> {
        match decode_uint(s, 4) {
            Ok((n, w)) => Ok((n as u32, w)),
            Err(e) => Err(e),
        }
    }

    fn deserialize_from(buf: &Bytes, pos: usize) -> (r: Result<(u32, usize), SerializeError>) {
        proof {
            lemma_pow256_values();
        }
        match read_uint(buf, pos, 4) {
            Ok((n, end)) => Ok((n as u32, end)),
            Err(e) => Err(e),
        }
    }

    proof fn lemma_decode_encode(v: &u32, rest: Seq<u8>) {
        lemma_pow256_values();
        lemma_decode_uint(*v as nat, 4, rest);
    }

    proof fn lemma_decode_truncated(v: &u32, n: nat) {
        lemma_be_len(*v as nat, 4);
    }

    proof fn lemma_decoded_encodable(s: Seq<u8>, v: &u32) {
    }
}

impl Serialize for u64 {
    open spec fn spec_encodable(&self) -> bool {
        true
    }

    open spec fn spec_encode(&self) -> Seq<u8> {
        be(*self as nat, 8)
    }

    fn can_serialize(&self) -> (r: bool) {
        true
    }

    fn size(&self) -> (r: usize) {
        proof {
            lemma_be_len(*self as nat, 8);
        }
        8
    }

    fn serialize(&self, buf: &mut Bytes) {
        buf.push_be(*self as u64, 8);
    }

    proof fn lemma_encode_by_model(a: &u64, b: &u64) {
    }
}

impl Deserialize for u64 {
    open spec fn spec_decode(s: Seq<u8>) -> Result<(u64, nat), SerializeError> {
        match decode_uint(s, 8) {
            Ok((n, w)) => Ok((n as u64, w)),
            Err(e) => Err(e),
        }
    }

    fn deserialize_from(buf: &Bytes, pos: usize) -> (r: Result<(u64, usize), SerializeError>) {
        proof {
            lemma_pow256_values();
        }
        match read_uint(buf, pos, 8) {
            Ok((n, end)) => Ok((n as u64, end)),
            Err(e) => Err(e),
        }
    }

    proof fn lemma_decode_encode(v: &u64, rest: Seq<u8>) {
        lemma_pow256_values();
        lemma_decode_uint(*v as nat, 8, rest);
    }

    proof fn lemma_decode_truncated(v: &u64, n: nat) {
        lemma_be_len(*v as nat, 8);
    }

    proof fn lemma_decoded_encodable(s: Seq<u8>, v: &u64) {
    }
}

impl Serialize for i8 {
    open spec fn spec_encodable(&self) -> bool {
        true
    }

    open spec fn spec_encode(&self) -> Seq<u8> {
        be(twos(*self as int, 1), 1)
    }

    fn can_serialize(&self) -> (r: bool) {
        true
    }

    fn size(&self) -> (r: usize) {
        proof {
            lemma_be_len(twos(*self as int, 1), 1);
        }
        1
    }

    fn serialize(&self, buf: &mut Bytes) {
        proof {
            lemma_pow256_values();
        }
        buf.push_be(to_twos(*self as i64, 1), 1);
    }

    proof fn lemma_encode_by_model(a: &i8, b: &i8) {
    }
}

impl Deserialize for i8 {
    open spec fn spec_decode(s: Seq<u8>) -> Result<(i8, nat), SerializeError> {
        match decode_uint(s, 1) {
            Ok((n, w)) => Ok((untwos(n, 1) as i8, w)),
            Err(e) => Err(e),
        }
    }

    fn deserialize_from(buf: &Bytes, pos: usize) -> (r: Result<(i8, usize), SerializeError>) {
        proof {
            lemma_pow256_values();
        }
        match read_uint(buf, pos, 1) {
            Ok((n, end)) => {
                proof {
                    lemma_untwos_range(n as nat, 1);
                }
                Ok((from_twos(n, 1) as i8, end))
            },
            Err(e) => Err(e),
        }
    }

    proof fn lemma_decode_encode(v: &i8, rest: Seq<u8>) {
        lemma_pow256_values();
        lemma_untwos_twos(*v as int, 1);
        lemma_decode_uint(twos(*v as int, 1), 1, rest);
    }

    proof fn lemma_decode_truncated(v: &i8, n: nat) {
        lemma_be_len(twos(*v as int, 1), 1);
    }

    proof fn lemma_decoded_encodable(s: Seq<u8>, v: &i8) {
    }
}

impl Serialize for i32 {
    open spec fn spec_encodable(&self) -> bool {
        true
    }

    open spec fn spec_encode(&self) -> Seq<u8> {
        be(twos(*self as int, 4), 4)
    }

    fn can_serialize(&self) -> (r: bool) {
        true
    }

    fn size(&self) -> (r: usize) {
        proof {
            lemma_be_len(twos(*self as int, 4), 4);
        }
        4
    }

    fn serialize(&self, buf: &mut Bytes) {
        proof {
            lemma_pow256_values();
        }
        buf.push_be(to_twos(*self as i64, 4), 4);
    }

    proof fn lemma_encode_by_model(a: &i32, b: &i32) {
    }
}

impl Deserialize for i32 {
    open spec fn spec_decode(s: Seq<u8>) -> Result<(i32, nat), SerializeError> {
        match decode_uint(s, 4) {
            Ok((n, w)) => Ok((untwos(n, 4) as i32, w)),
            Err(e) => Err(e),
        }
    }

    fn deserialize_from(buf: &Bytes, pos: usize) -> (r: Result<(i32, usize), SerializeError>) {
        proof {
            lemma_pow256_values();
        }
        match read_uint(buf, pos, 4) {
            Ok((n, end)) => {
                proof {
                    lemma_untwos_range(n as nat, 4);
                }
                Ok((from_twos(n, 4) as i32, end))
            },
            Err(e) => Err(e),
        }
    }

    proof fn lemma_decode_encode(v: &i32, rest: Seq<u8>) {
        lemma_pow256_values();
        lemma_untwos_twos(*v as int, 4);
        lemma_decode_uint(twos(*v as int, 4), 4, rest);
    }

    proof fn lemma_decode_truncated(v: &i32, n: nat) {
        lemma_be_len(twos(*v as int, 4), 4);
    }

    proof fn lemma_decoded_encodable(s: Seq<u8>, v: &i32) {
    }
}

impl Serialize for i64 {
    open spec fn spec_encodable(&self) -> bool {
        true
    }

    open spec fn spec_encode(&self) -> Seq<u8> {
        be(twos(*self as int, 8), 8)
    }

    fn can_serialize(&self) -> (r: bool) {
        true
    }

    fn size(&self) -> (r: usize) {
        proof {
            lemma_be_len(twos(*self as int, 8), 8);
        }
        8
    }

    fn serialize(&self, buf: &mut Bytes) {
        proof {
            lemma_pow256_values();
        }
        buf.push_be(to_twos(*self as i64, 8), 8);
    }

    proof fn lemma_encode_by_model(a: &i64, b: &i64) {
    }
}

impl Deserialize for i64 {
    open spec fn spec_decode(s: Seq<u8>) -> Result<(i64, nat), SerializeError> {
        match decode_uint(s, 8) {
            Ok((n, w)) => Ok((untwos(n, 8) as i64, w)),
            Err(e) => Err(e),
        }
    }

    fn deserialize_from(buf: &Bytes, pos: usize) -> (r: Result<(i64, usize), SerializeError>) {
        proof {
            lemma_pow256_values();
        }
        match read_uint(buf, pos, 8) {
            Ok((n, end)) => {
                proof {
                    lemma_untwos_range(n as nat, 8);
                }
                Ok((from_twos(n, 8) as i64, end))
            },
            Err(e) => Err(e),
        }
    }

    proof fn lemma_decode_encode(v: &i64, rest: Seq<u8>) {
        lemma_pow256_values();
        lemma_untwos_twos(*v as int, 8);
        lemma_decode_uint(twos(*v as int, 8), 8, rest);
    }

    proof fn lemma_decode_truncated(v: &i64, n: nat) {
        lemma_be_len(twos(*v as int, 8), 8);
    }

    proof fn lemma_decoded_encodable(s: Seq<u8>, v: &i64) {
    }
}

impl Serialize for usize {
    open spec fn spec_encodable(&self) -> bool {
        true
    }

    /// Eight bytes on every platform, so that the bytes are portable.
    open spec fn spec_encode(&self) -> Seq<u8> {
        be(*self as nat, 8)
    }

    fn can_serialize(&self) -> (r: bool) {
        true
    }

    fn size(&self) -> (r: usize) {
        proof {
            lemma_be_len(*self as nat, 8);
        }
        8
    }

    fn serialize(&self, buf: &mut Bytes) {
        buf.push_be(*self as u64, 8);
    }

    proof fn lemma_encode_by_model(a: &usize, b: &usize) {
    }
}

impl Deserialize for usize {
    /// A number beyond this platform's `usize` is no value of it.
    open spec fn spec_decode(s: Seq<u8>) -> Result<(usize, nat), SerializeError> {
        match decode_uint(s, 8) {
            Ok((n, w)) => if n <= usize::MAX {
                Ok((n as usize, w))
            } else {
                Err(SerializeError::InvalidEncoding)
            },
            Err(e) => Err(e),
        }
    }

    fn deserialize_from(buf: &Bytes, pos: usize) -> (r: Result<(usize, usize), SerializeError>) {
        proof {
            lemma_pow256_values();
        }
        match read_uint(buf, pos, 8) {
            Ok((n, end)) => if n <= usize::MAX as u64 {
                Ok((n as usize, end))
            } else {
                Err(SerializeError::InvalidEncoding)
            },
            Err(e) => Err(e),
        }
    }

    proof fn lemma_decode_encode(v: &usize, rest: Seq<u8>) {
        lemma_pow256_values();
        lemma_decode_uint(*v as nat, 8, rest);
    }

    proof fn lemma_decode_truncated(v: &usize, n: nat) {
        lemma_be_len(*v as nat, 8);
    }

    proof fn lemma_decoded_encodable(s: Seq<u8>, v: &usize) {
    }
}

impl Serialize for isize {
    open spec fn spec_encodable(&self) -> bool {
        true
    }

    /// Eight bytes on every platform, so that the bytes are portable.
    open spec fn spec_encode(&self) -> Seq<u8> {
        be(twos(*self as int, 8), 8)
    }

    fn can_serialize(&self) -> (r: bool) {
        true
    }

    fn size(&self) -> (r: usize) {
        proof {
            lemma_be_len(twos(*self as int, 8), 8);
        }
        8
    }

    fn serialize(&self, buf: &mut Bytes) {
        proof {
            lemma_pow256_values();
        }
        buf.push_be(to_twos(*self as i64, 8), 8);
    }

    proof fn lemma_encode_by_model(a: &isize, b: &isize) {
    }
}

impl Deserialize for isize {
    /// A number beyond this platform's `isize` is no value of it.
    open spec fn spec_decode(s: Seq<u8>) -> Result<(isize, nat), SerializeError> {
        match decode_uint(s, 8) {
            Ok((n, w)) => if isize::MIN <= untwos(n, 8) <= isize::MAX {
                Ok((untwos(n, 8) as isize, w))
            } else {
                Err(SerializeError::InvalidEncoding)
            },
            Err(e) => Err(e),
        }
    }

    fn deserialize_from(buf: &Bytes, pos: usize) -> (r: Result<(isize, usize), SerializeError>) {
        proof {
            lemma_pow256_values();
        }
        match read_uint(buf, pos, 8) {
            Ok((n, end)) => {
                proof {
                    lemma_untwos_range(n as nat, 8);
                }
                let x = from_twos(n, 8);
                if isize::MIN as i64 <= x && x <= isize::MAX as i64 {
                    Ok((x as isize, end))
                } else {
                    Err(SerializeError::InvalidEncoding)
                }
            },
            Err(e) => Err(e),
        }
    }

    proof fn lemma_decode_encode(v: &isize, rest: Seq<u8>) {
        lemma_pow256_values();
        lemma_untwos_twos(*v as int, 8);
        lemma_decode_uint(twos(*v as int, 8), 8, rest);
    }

    proof fn lemma_decode_truncated(v: &isize, n: nat) {
        lemma_be_len(twos(*v as int, 8), 8);
    }

    proof fn lemma_decoded_encodable(s: Seq<u8>, v: &isize) {
    }
}

impl Serialize for bool {
    open spec fn spec_encodable(&self) -> bool {
        true
    }

    /// `1` for true, `0` for false.
    open spec fn spec_encode(&self) -> Seq<u8> {
        seq![if *self { 1u8 } else { 0u8 }]
    }

    fn can_serialize(&self) -> (r: bool) {
        true
    }

    fn size(&self) -> (r: usize) {
        1
    }

    fn serialize(&self, buf: &mut Bytes) {
        buf.push(if *self { 1u8 } else { 0u8 });
    }

    proof fn lemma_encode_by_model(a: &bool, b: &bool) {
    }
}

impl Deserialize for bool {
    /// Any byte but zero reads as true.
    open spec fn spec_decode(s: Seq<u8>) -> Result<(bool, nat), SerializeError> {
        if s.len() < 1 {
            Err(SerializeError::TruncatedInput)
        } else {
            Ok((s[0] != 0, 1))
        }
    }

    fn deserialize_from(buf: &Bytes, pos: usize) -> (r: Result<(bool, usize), SerializeError>) {
        if pos >= buf.len() {
            return Err(SerializeError::TruncatedInput);
        }
        Ok((buf.get(pos) != 0, pos + 1))
    }

    proof fn lemma_decode_encode(v: &bool, rest: Seq<u8>) {
    }

    proof fn lemma_decode_truncated(v: &bool, n: nat) {
    }

    proof fn lemma_decoded_encodable(s: Seq<u8>, v: &bool) {
    }
}

impl Serialize for char {
    /// Only ASCII characters have a one-byte form.
    open spec fn spec_encodable(&self) -> bool {
        (*self as u32) < 128
    }

    open spec fn spec_encode(&self) -> Seq<u8> {
        seq![(*self as u32) as u8]
    }

    fn can_serialize(&self) -> (r: bool) {
        (*self as u32) < 128
    }

    fn size(&self) -> (r: usize) {
        1
    }

    fn serialize(&self, buf: &mut Bytes) {
        buf.push((*self as u32) as u8);
    }

    proof fn lemma_encode_by_model(a: &char, b: &char) {
    }
}

impl Deserialize for char {
    /// A byte past the ASCII range is no character of this codec.
    open spec fn spec_decode(s: Seq<u8>) -> Result<(char, nat), SerializeError> {
        if s.len() < 1 {
            Err(SerializeError::TruncatedInput)
        } else if s[0] < 128 {
            Ok((s[0] as char, 1))
        } else {
            Err(SerializeError::InvalidEncoding)
        }
    }

    fn deserialize_from(buf: &Bytes, pos: usize) -> (r: Result<(char, usize), SerializeError>) {
        if pos >= buf.len() {
            return Err(SerializeError::TruncatedInput);
        }
        let b = buf.get(pos);
        if b < 128 {
            Ok((b as char, pos + 1))
        } else {
            Err(SerializeError::InvalidEncoding)
        }
    }

    proof fn lemma_decode_encode(v: &char, rest: Seq<u8>) {
        let b = (*v as u32) as u8;
        assert((b as char) as u32 == *v as u32);
        vstd::utf8::char_u32_cast(*v, *v as u32);
        vstd::utf8::char_u32_cast(b as char, (b as char) as u32);
    }

    proof fn lemma_decode_truncated(v: &char, n: nat) {
    }

    proof fn lemma_decoded_encodable(s: Seq<u8>, v: &char) {
    }
}

} // verus!
