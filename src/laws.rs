//! Laws that hold of every codec, stated over the spec encoder and decoder
//! that the executable functions are proved against.
use crate::codec::{decode_at, decoded, fails_with, Deserialize};
use crate::error::SerializeError;
use crate::variant::{decode_variant, encode_variant};
use crate::bigend::lemma_pow256_values;
use vstd::prelude::*;

verus! {

/// Round trip: the bytes of a value decode to that value (to its model) and
/// take exactly its size.
pub proof fn lemma_round_trip<T: Deserialize>(v: &T)
    requires
        v.spec_encodable(),
    ensures
        decode_at::<T>(v.spec_encode(), 0) == decoded(v.deep_view(), v.spec_encode().len()),
{
    T::lemma_decode_encode(v, Seq::empty());
    assert(v.spec_encode() + Seq::<u8>::empty() =~= v.spec_encode());
    assert(v.spec_encode().subrange(0, v.spec_encode().len() as int) =~= v.spec_encode());
}

/// Exact size after decoding: a value read back from the bytes of `v` can
/// be written again, and has the bytes, and so the size, of `v`.
pub proof fn lemma_decoded_size<T: Deserialize>(v: &T, w: &T)
    requires
        v.spec_encodable(),
        decode_at::<T>(v.spec_encode(), 0) matches Ok((m, _)) && m == w.deep_view(),
    ensures
        w.spec_encodable(),
        w.spec_encode() == v.spec_encode(),
{
    lemma_round_trip(v);
    T::lemma_encode_by_model(v, w);
}

/// Sequential composability: the bytes of `a` followed by those of `b`
/// decode to `a` at the start and to `b` where `a`'s bytes end, with no
/// framing between them.
pub proof fn lemma_sequential<A: Deserialize, B: Deserialize>(a: &A, b: &B)
    requires
        a.spec_encodable(),
        b.spec_encodable(),
    ensures
        decode_at::<A>(a.spec_encode() + b.spec_encode(), 0) == decoded(
            a.deep_view(),
            a.spec_encode().len(),
        ),
        decode_at::<B>(a.spec_encode() + b.spec_encode(), a.spec_encode().len() as int)
            == decoded(b.deep_view(), b.spec_encode().len()),
{
    let s = a.spec_encode() + b.spec_encode();
    A::lemma_decode_encode(a, b.spec_encode());
    assert(s.subrange(0, s.len() as int) =~= s);
    B::lemma_decode_encode(b, Seq::empty());
    assert(s.subrange(a.spec_encode().len() as int, s.len() as int) =~= b.spec_encode()
        + Seq::<u8>::empty());
}

/// Truncation safety: the bytes of a value cut to fewer than its size fail
/// to decode, with a truncation failure.
pub proof fn lemma_truncation<T: Deserialize>(v: &T, n: nat)
    requires
        v.spec_encodable(),
        n < v.spec_encode().len(),
    ensures
        fails_with(
            decode_at::<T>(v.spec_encode().take(n as int), 0),
            SerializeError::TruncatedInput,
        ),
{
    T::lemma_decode_truncated(v, n);
    let t = v.spec_encode().take(n as int);
    assert(t.subrange(0, t.len() as int) =~= t);
}

/// Unknown discriminant rejection for optional values: a discriminant byte
/// other than that of an absent or a present value fails to decode, as an
/// invalid discriminant, whatever follows it.
pub proof fn lemma_unknown_option_discriminant<T: Deserialize>(d: u8, rest: Seq<u8>)
    requires
        d != crate::option::ABSENT,
        d != crate::option::PRESENT,
    ensures
        fails_with(
            decode_at::<Option<T>>(seq![d] + rest, 0),
            SerializeError::InvalidDiscriminant,
        ),
{
    let s = seq![d] + rest;
    assert(s.subrange(0, s.len() as int) =~= s);
}

/// Unknown discriminant rejection for tagged unions: the discriminant of an
/// ordinal at or past the number of declared variants fails to decode, as an
/// invalid discriminant, whatever follows it.
pub proof fn lemma_unknown_variant(ordinal: u64, count: u64, rest: Seq<u8>)
    requires
        ordinal >= count,
    ensures
        decode_variant(encode_variant(ordinal) + rest, count) == Err::<(u64, nat), SerializeError>(
            SerializeError::InvalidDiscriminant,
        ),
{
    lemma_pow256_values();
    crate::primitive::lemma_decode_uint(ordinal as nat, 8, rest);
}

} // verus!
