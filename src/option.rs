//! Optional values behind a one-byte discriminant, and boxed values, which
//! are written as what they hold.
use crate::bytes::Bytes;
use crate::codec::{tail, Deserialize, Serialize};
use crate::error::SerializeError;
use vstd::prelude::*;

verus! {

/// The discriminant of an absent value.
pub const ABSENT: u8 = 0;

/// The discriminant of a present value, which its payload follows.
pub const PRESENT: u8 = 1;

impl<T: Serialize> Serialize for Option<T> {
    open spec fn spec_encodable(&self) -> bool {
        match self {
            Some(v) => v.spec_encodable(),
            None => true,
        }
    }

    /// `ABSENT` alone, or `PRESENT` and then the payload.
    open spec fn spec_encode(&self) -> Seq<u8> {
        match self {
            Some(v) => seq![PRESENT] + v.spec_encode(),
            None => seq![ABSENT],
        }
    }

    fn can_serialize(&self) -> (r: bool) {
        match self {
            Some(v) => v.can_serialize(),
            None => true,
        }
    }

    fn size(&self) -> (r: usize) {
        match self {
            Some(v) => 1 + v.size(),
            None => 1,
        }
    }

    fn serialize(&self, buf: &mut Bytes) {
        match self {
            Some(v) => {
                buf.push(PRESENT);
                v.serialize(buf);
                assert(buf@ =~= old(buf)@ + self.spec_encode());
            },
            None => {
                buf.push(ABSENT);
                assert(buf@ =~= old(buf)@ + self.spec_encode());
            },
        }
    }

    proof fn lemma_encode_by_model(a: &Option<T>, b: &Option<T>) {
        match (a, b) {
            (Some(x), Some(y)) => T::lemma_encode_by_model(x, y),
            _ => {},
        }
    }
}

impl<T: Deserialize> Deserialize for Option<T> {
    /// Any discriminant but `ABSENT` and `PRESENT` is refused.
    open spec fn spec_decode(s: Seq<u8>) -> Result<
        (Option<<T as DeepView>::V>, nat),
        SerializeError,
    > {
        if s.len() < 1 {
            Err(SerializeError::TruncatedInput)
        } else if s[0] == ABSENT {
            Ok((None, 1))
        } else if s[0] == PRESENT {
            match T::spec_decode(s.skip(1)) {
                Ok((v, n)) => Ok((Some(v), 1 + n)),
                Err(e) => Err(e),
            }
        } else {
            Err(SerializeError::InvalidDiscriminant)
        }
    }

    fn deserialize_from(buf: &Bytes, pos: usize) -> (r: Result<
        (Option<T>, usize),
        SerializeError,
    >) {
        if pos >= buf.len() {
            return Err(SerializeError::TruncatedInput);
        }
        let d = buf.get(pos);
        if d == ABSENT {
            Ok((None, pos + 1))
        } else if d == PRESENT {
            assert(tail(buf@, pos as int).skip(1) =~= tail(buf@, pos + 1));
            match T::deserialize_from(buf, pos + 1) {
                Ok((v, end)) => Ok((Some(v), end)),
                Err(e) => Err(e),
            }
        } else {
            Err(SerializeError::InvalidDiscriminant)
        }
    }

    proof fn lemma_decode_encode(v: &Option<T>, rest: Seq<u8>) {
        match v {
            Some(x) => {
                assert((v.spec_encode() + rest).skip(1) =~= x.spec_encode() + rest);
                T::lemma_decode_encode(x, rest);
            },
            None => {},
        }
    }

    proof fn lemma_decode_truncated(v: &Option<T>, n: nat) {
        match v {
            Some(x) => {
                if n >= 1 {
                    assert(v.spec_encode().take(n as int).skip(1) =~= x.spec_encode().take(
                        n - 1,
                    ));
                    T::lemma_decode_truncated(x, (n - 1) as nat);
                }
            },
            None => {},
        }
    }

    proof fn lemma_decoded_encodable(s: Seq<u8>, v: &Option<T>) {
        match v {
            Some(x) => T::lemma_decoded_encodable(s.skip(1), x),
            None => {},
        }
    }
}

impl<T: Serialize> Serialize for Box<T> {
    open spec fn spec_encodable(&self) -> bool {
        (**self).spec_encodable()
    }

    /// The bytes of the value held.
    open spec fn spec_encode(&self) -> Seq<u8> {
        (**self).spec_encode()
    }

    fn can_serialize(&self) -> (r: bool) {
        (**self).can_serialize()
    }

    fn size(&self) -> (r: usize) {
        (**self).size()
    }

    fn serialize(&self, buf: &mut Bytes) {
        (**self).serialize(buf)
    }

    proof fn lemma_encode_by_model(a: &Box<T>, b: &Box<T>) {
        T::lemma_encode_by_model(&**a, &**b);
    }
}

impl<T: Deserialize> Deserialize for Box<T> {
    open spec fn spec_decode(s: Seq<u8>) -> Result<(<T as DeepView>::V, nat), SerializeError> {
        T::spec_decode(s)
    }

    fn deserialize_from(buf: &Bytes, pos: usize) -> (r: Result<(Box<T>, usize), SerializeError>) {
        match T::deserialize_from(buf, pos) {
            Ok((v, end)) => Ok((Box::new(v), end)),
            Err(e) => Err(e),
        }
    }

    proof fn lemma_decode_encode(v: &Box<T>, rest: Seq<u8>) {
        T::lemma_decode_encode(&**v, rest);
    }

    proof fn lemma_decode_truncated(v: &Box<T>, n: nat) {
        T::lemma_decode_truncated(&**v, n);
    }

    proof fn lemma_decoded_encodable(s: Seq<u8>, v: &Box<T>) {
        T::lemma_decoded_encodable(s, &**v);
    }
}

} // verus!
