//! The capability that each serializable type implements: the bytes a value
//! becomes, what bytes decode to, and the laws that tie the two together.
use crate::bytes::Bytes;
use crate::error::SerializeError;
use vstd::prelude::*;

verus! {

/// A successful decode: the model of the value and the number of bytes taken.
pub open spec fn decoded<V>(v: V, n: nat) -> Result<(V, nat), SerializeError> {
    Ok((v, n))
}

/// A failed decode with the error `e`.
pub open spec fn fails_with<V>(r: Result<(V, nat), SerializeError>, e: SerializeError) -> bool {
    r == Err::<(V, nat), SerializeError>(e)
}

/// The bytes of `s` from `pos` to the end.
pub open spec fn tail(s: Seq<u8>, pos: int) -> Seq<u8> {
    s.subrange(pos, s.len() as int)
}

/// What decoding a `T` at `pos` of `s` gives: a truncation failure past the
/// end, otherwise what the bytes from `pos` on decode to.
pub open spec fn decode_at<T: Deserialize>(s: Seq<u8>, pos: int) -> Result<
    (<T as DeepView>::V, nat),
    SerializeError,
> {
    if 0 <= pos <= s.len() {
        T::spec_decode(tail(s, pos))
    } else {
        Err(SerializeError::TruncatedInput)
    }
}

/// A type whose values can be written as bytes.
pub trait Serialize: DeepView + Sized {
    /// Whether the value can be written: each length fits its prefix.
    spec fn spec_encodable(&self) -> bool;

    /// The bytes that the value becomes.
    spec fn spec_encode(&self) -> Seq<u8>;

    /// Whether the value can be written: each length fits its prefix.
    fn can_serialize(&self) -> (r: bool)
        ensures
            r == self.spec_encodable(),
    ;

    /// The number of bytes that the value becomes.
    fn size(&self) -> (r: usize)
        requires
            self.spec_encodable(),
            self.spec_encode().len() <= usize::MAX,
        ensures
            r == self.spec_encode().len(),
    ;

    /// Appends the bytes of the value to `buf`.
    fn serialize(&self, buf: &mut Bytes)
        requires
            self.spec_encodable(),
        ensures
            final(buf)@ == old(buf)@ + self.spec_encode(),
            final(buf).cursor() == old(buf).cursor(),
    ;

    /// Values with the same model have the same bytes.
    proof fn lemma_encode_by_model(a: &Self, b: &Self)
        requires
            a.deep_view() == b.deep_view(),
        ensures
            a.spec_encodable() == b.spec_encodable(),
            a.spec_encode() == b.spec_encode(),
    ;
}

/// A type whose values can be read back from bytes.
pub trait Deserialize: Serialize {
    /// What the front of `s` decodes to: the model of the value and the
    /// number of bytes it takes, or the failure.
    spec fn spec_decode(s: Seq<u8>) -> Result<(<Self as DeepView>::V, nat), SerializeError>;

    /// Decodes one value starting at `pos`; on success also gives the position
    /// just past it.
    fn deserialize_from(buf: &Bytes, pos: usize) -> (r: Result<(Self, usize), SerializeError>)
        ensures
            pos > buf@.len() ==> r matches Err(SerializeError::TruncatedInput),
            pos <= buf@.len() ==> match r {
                Ok((v, end)) => {
                    &&& pos <= end <= buf@.len()
                    &&& Self::spec_decode(tail(buf@, pos as int)) == decoded(
                        v.deep_view(),
                        (end - pos) as nat,
                    )
                },
                Err(e) => fails_with(Self::spec_decode(tail(buf@, pos as int)), e),
            },
    ;

    /// The bytes of a value, whatever follows them, decode to that value and
    /// take exactly its size.
    proof fn lemma_decode_encode(v: &Self, rest: Seq<u8>)
        requires
            v.spec_encodable(),
        ensures
            Self::spec_decode(v.spec_encode() + rest) == decoded(
                v.deep_view(),
                v.spec_encode().len(),
            ),
    ;

    /// The bytes of a value cut short decode to a truncation failure.
    proof fn lemma_decode_truncated(v: &Self, n: nat)
        requires
            v.spec_encodable(),
            n < v.spec_encode().len(),
        ensures
            fails_with(
                Self::spec_decode(v.spec_encode().take(n as int)),
                SerializeError::TruncatedInput,
            ),
    ;

    /// A value with the model that some bytes decode to can be written.
    proof fn lemma_decoded_encodable(s: Seq<u8>, v: &Self)
        requires
            Self::spec_decode(s) matches Ok((m, _)) && m == v.deep_view(),
        ensures
            v.spec_encodable(),
    ;

    /// Decodes one value at the cursor of `buf` and moves the cursor past it;
    /// on failure the cursor stays.
    fn deserialize(buf: &mut Bytes) -> (r: Result<Self, SerializeError>)
        ensures
            final(buf)@ == old(buf)@,
            old(buf).cursor() > old(buf)@.len() ==> r matches Err(SerializeError::TruncatedInput),
            old(buf).cursor() <= old(buf)@.len() ==> match r {
                Ok(v) => {
                    &&& old(buf).cursor() <= final(buf).cursor() <= old(buf)@.len()
                    &&& Self::spec_decode(tail(old(buf)@, old(buf).cursor() as int)) == decoded(
                        v.deep_view(),
                        (final(buf).cursor() - old(buf).cursor()) as nat,
                    )
                },
                Err(e) => fails_with(
                    Self::spec_decode(tail(old(buf)@, old(buf).cursor() as int)),
                    e,
                ),
            },
            r is Err ==> final(buf).cursor() == old(buf).cursor(),
    {
        let pos = buf.position();
        match Self::deserialize_from(buf, pos) {
            Ok((v, end)) => {
                buf.seek(end);
                Ok(v)
            },
            Err(e) => Err(e),
        }
    }
}

/// A sink that values can be written to one after another.
pub trait SerialWrite: View<V = Seq<u8>> + Sized {
    /// Appends the bytes of `val`.
    fn write_serialized<S: Serialize>(&mut self, val: S)
        requires
            val.spec_encodable(),
        ensures
            final(self)@ == old(self)@ + val.spec_encode(),
    ;
}

/// A source that values can be read from one after another.
pub trait SerialRead: View<V = Seq<u8>> + Sized {
    /// Where the next read starts.
    spec fn read_position(&self) -> nat;

    /// Reads one value at the read position and moves past it; on failure the
    /// position stays.
    fn read_serialized<S: Deserialize>(&mut self) -> (r: Result<S, SerializeError>)
        ensures
            final(self)@ == old(self)@,
            match r {
                Ok(v) => {
                    &&& old(self).read_position() <= final(self).read_position() <= old(self)@.len()
                    &&& decode_at::<S>(old(self)@, old(self).read_position() as int) == decoded(
                        v.deep_view(),
                        (final(self).read_position() - old(self).read_position()) as nat,
                    )
                },
                Err(e) => {
                    &&& final(self).read_position() == old(self).read_position()
                    &&& fails_with(decode_at::<S>(old(self)@, old(self).read_position() as int), e)
                },
            },
    ;
}

impl SerialWrite for Bytes {
    /// The read cursor stays where it was.
    fn write_serialized<S: Serialize>(&mut self, val: S)
        ensures
            final(self).cursor() == old(self).cursor(),
    {
        val.serialize(self);
    }
}

impl SerialRead for Bytes {
    open spec fn read_position(&self) -> nat {
        self.cursor()
    }

    fn read_serialized<S: Deserialize>(&mut self) -> (r: Result<S, SerializeError>) {
        S::deserialize(self)
    }
}

impl Bytes {
    /// Decodes a `T` at `index`.
    pub fn read<T: Deserialize>(&self, index: usize) -> (r: Result<T, SerializeError>)
        ensures
            match r {
                Ok(v) => decode_at::<T>(self@, index as int) matches Ok((m, _)) && m
                    == v.deep_view(),
                Err(e) => fails_with(decode_at::<T>(self@, index as int), e),
            },
    {
        match T::deserialize_from(self, index) {
            Ok((v, _)) => Ok(v),
            Err(e) => Err(e),
        }
    }

    /// Overwrites the bytes from `index` on with those of `value`; the length
    /// stays as it was.
    pub fn write<T: Serialize>(&mut self, index: usize, value: &T)
        requires
            value.spec_encodable(),
            index + value.spec_encode().len() <= old(self)@.len(),
        ensures
            final(self)@ == old(self)@.subrange(0, index as int) + value.spec_encode() + old(
                self,
            )@.subrange(index + value.spec_encode().len(), old(self)@.len() as int),
            final(self).cursor() == old(self).cursor(),
    {
        let mut encoded = Bytes::new();
        value.serialize(&mut encoded);
        assert(encoded@ =~= value.spec_encode());
        self.insert(index, &encoded);
    }
}

} // verus!
