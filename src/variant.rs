//! What a record or tagged-union codec is made of. A record is its fields in
//! declared order, which is the codec of the tuple of its fields. A tagged
//! union is the ordinal of its variant, then that variant's fields as a
//! record; a decode refuses an ordinal at or past the number of variants.
use crate::bigend::{be, lemma_pow256_values};
use crate::bytes::Bytes;
use crate::codec::tail;
use crate::error::SerializeError;
use crate::primitive::{decode_uint, lemma_decode_uint, read_uint};
use vstd::prelude::*;

verus! {

/// The bytes of the discriminant of the variant at `ordinal`: eight bytes.
pub open spec fn encode_variant(ordinal: u64) -> Seq<u8> {
    be(ordinal as nat, 8)
}

/// What the front of `s` gives as the discriminant of one of `count`
/// variants: its ordinal and the bytes taken, or the failure.
pub open spec fn decode_variant(s: Seq<u8>, count: u64) -> Result<(u64, nat), SerializeError> {
    match decode_uint(s, 8) {
        Err(e) => Err(e),
        Ok((d, n)) => if d < count {
            Ok((d as u64, n))
        } else {
            Err(SerializeError::InvalidDiscriminant)
        },
    }
}

/// Appends the discriminant of the variant at `ordinal`.
pub fn write_variant(buf: &mut Bytes, ordinal: u64)
    ensures
        final(buf)@ == old(buf)@ + encode_variant(ordinal),
        final(buf).cursor() == old(buf).cursor(),
{
    buf.push_be(ordinal, 8);
}

/// Reads the discriminant of one of `count` variants at `pos`; on success
/// also gives the position just past it.
pub fn read_variant(buf: &Bytes, pos: usize, count: u64) -> (r: Result<
    (u64, usize),
    SerializeError,
>)
    ensures
        pos > buf@.len() ==> r matches Err(SerializeError::TruncatedInput),
        pos <= buf@.len() ==> match r {
            Ok((d, end)) => {
                &&& end == pos + 8
                &&& end <= buf@.len()
                &&& decode_variant(tail(buf@, pos as int), count) == Ok::<
                    (u64, nat),
                    SerializeError,
                >((d, 8))
            },
            Err(e) => decode_variant(tail(buf@, pos as int), count) == Err::<
                (u64, nat),
                SerializeError,
            >(e),
        },
{
    proof {
        lemma_pow256_values();
    }
    match read_uint(buf, pos, 8) {
        Ok((d, end)) => if d < count {
            Ok((d, end))
        } else {
            Err(SerializeError::InvalidDiscriminant)
        },
        Err(e) => Err(e),
    }
}

/// The discriminant of a declared variant, whatever follows, reads back as it.
pub proof fn lemma_decode_variant(ordinal: u64, count: u64, rest: Seq<u8>)
    requires
        ordinal < count,
    ensures
        encode_variant(ordinal).len() == 8,
        decode_variant(encode_variant(ordinal) + rest, count) == Ok::<(u64, nat), SerializeError>(
            (ordinal, 8),
        ),
{
    lemma_pow256_values();
    lemma_decode_uint(ordinal as nat, 8, rest);
}

} // verus!
