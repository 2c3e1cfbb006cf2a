//! Tuples: the components in order, with no prefix. A tuple of more than two
//! components is specified as its first component followed by the tuple of
//! the others, which gives the same bytes.
use crate::bytes::Bytes;
use crate::codec::{tail, Deserialize, Serialize};
use crate::error::SerializeError;
use vstd::prelude::*;

verus! {

impl<A: Serialize, B: Serialize> Serialize for (A, B) {
    open spec fn spec_encodable(&self) -> bool {
        self.0.spec_encodable() && self.1.spec_encodable()
    }

    open spec fn spec_encode(&self) -> Seq<u8> {
        self.0.spec_encode() + self.1.spec_encode()
    }

    fn can_serialize(&self) -> (r: bool) {
        self.0.can_serialize()
            && self.1.can_serialize()
    }

    fn size(&self) -> (r: usize) {
        self.0.size() + self.1.size()
    }

    fn serialize(&self, buf: &mut Bytes) {
        self.0.serialize(buf);
        self.1.serialize(buf);
        assert(buf@ =~= old(buf)@ + self.spec_encode());
    }

    proof fn lemma_encode_by_model(a: &(A, B), b: &(A, B)) {
        A::lemma_encode_by_model(&a.0, &b.0);
        B::lemma_encode_by_model(&a.1, &b.1);
    }
}

impl<A: Deserialize, B: Deserialize> Deserialize for (A, B) {
    open spec fn spec_decode(s: Seq<u8>) -> Result<
        (
            (
                <A as DeepView>::V,
                <B as DeepView>::V,
            ),
            nat,
        ),
        SerializeError,
    > {
        match A::spec_decode(s) {
            Err(e) => Err(e),
            Ok((a, n)) => match B::spec_decode(tail(s, n as int)) {
                Err(e) => Err(e),
                Ok((b, m)) => Ok(((a, b), n + m)),
            },
        }
    }

    fn deserialize_from(buf: &Bytes, pos: usize) -> (r: Result<((A, B), usize), SerializeError>) {
        let (a, at) = match A::deserialize_from(buf, pos) {
            Ok(x) => x,
            Err(e) => return Err(e),
        };
        assert(tail(tail(buf@, pos as int), (at - pos) as int) =~= tail(buf@, at as int));
        let (b, end) = match B::deserialize_from(buf, at) {
            Ok(x) => x,
            Err(e) => return Err(e),
        };
        Ok(((a, b), end))
    }

    proof fn lemma_decode_encode(v: &(A, B), rest: Seq<u8>) {
        let s = v.spec_encode() + rest;
        assert(s =~= v.0.spec_encode() + (v.1.spec_encode() + rest));
        A::lemma_decode_encode(&v.0, v.1.spec_encode() + rest);
        assert(tail(s, v.0.spec_encode().len() as int) =~= v.1.spec_encode() + rest);
        B::lemma_decode_encode(&v.1, rest);
    }

    proof fn lemma_decode_truncated(v: &(A, B), n: nat) {
        let ea = v.0.spec_encode();
        let t = v.spec_encode().take(n as int);
        if n < ea.len() {
            assert(t =~= ea.take(n as int));
            A::lemma_decode_truncated(&v.0, n);
        } else {
            let k = (n - ea.len()) as nat;
            assert(t =~= ea + v.1.spec_encode().take(k as int));
            A::lemma_decode_encode(&v.0, v.1.spec_encode().take(k as int));
            assert(tail(t, ea.len() as int) =~= v.1.spec_encode().take(k as int));
            B::lemma_decode_truncated(&v.1, k);
        }
    }

    proof fn lemma_decoded_encodable(s: Seq<u8>, v: &(A, B)) {
        A::lemma_decoded_encodable(s, &v.0);
        let n = A::spec_decode(s)->Ok_0.1;
        B::lemma_decoded_encodable(tail(s, n as int), &v.1);
    }
}

impl<A: Serialize, B: Serialize, C: Serialize> Serialize for (A, B, C) {
    open spec fn spec_encodable(&self) -> bool {
        self.0.spec_encodable() && self.1.spec_encodable() && self.2.spec_encodable()
    }

    open spec fn spec_encode(&self) -> Seq<u8> {
        self.0.spec_encode() + (self.1, self.2).spec_encode()
    }

    fn can_serialize(&self) -> (r: bool) {
        self.0.can_serialize()
            && self.1.can_serialize()
            && self.2.can_serialize()
    }

    fn size(&self) -> (r: usize) {
        self.0.size() + self.1.size() + self.2.size()
    }

    fn serialize(&self, buf: &mut Bytes) {
        self.0.serialize(buf);
        self.1.serialize(buf);
        self.2.serialize(buf);
        assert(buf@ =~= old(buf)@ + self.spec_encode());
    }

    proof fn lemma_encode_by_model(a: &(A, B, C), b: &(A, B, C)) {
        A::lemma_encode_by_model(&a.0, &b.0);
        <(B, C)>::lemma_encode_by_model(&(a.1, a.2), &(b.1, b.2));
    }
}

impl<A: Deserialize, B: Deserialize, C: Deserialize> Deserialize for (A, B, C) {
    open spec fn spec_decode(s: Seq<u8>) -> Result<
        (
            (
                <A as DeepView>::V,
                <B as DeepView>::V,
                <C as DeepView>::V,
            ),
            nat,
        ),
        SerializeError,
    > {
        match A::spec_decode(s) {
            Err(e) => Err(e),
            Ok((a, n)) => match <(B, C)>::spec_decode(tail(s, n as int)) {
                Err(e) => Err(e),
                Ok(((b, c), m)) => Ok(((a, b, c), n + m)),
            },
        }
    }

    fn deserialize_from(buf: &Bytes, pos: usize) -> (r: Result<
        ((A, B, C), usize),
        SerializeError,
    >) {
        let (a, at) = match A::deserialize_from(buf, pos) {
            Ok(x) => x,
            Err(e) => return Err(e),
        };
        assert(tail(tail(buf@, pos as int), (at - pos) as int) =~= tail(buf@, at as int));
        let (others, end) = match <(B, C)>::deserialize_from(buf, at) {
            Ok(x) => x,
            Err(e) => return Err(e),
        };
        let (b, c) = others;
        Ok(((a, b, c), end))
    }

    proof fn lemma_decode_encode(v: &(A, B, C), rest: Seq<u8>) {
        let s = v.spec_encode() + rest;
        let others = (v.1, v.2);
        assert(s =~= v.0.spec_encode() + (others.spec_encode() + rest));
        A::lemma_decode_encode(&v.0, others.spec_encode() + rest);
        assert(tail(s, v.0.spec_encode().len() as int) =~= others.spec_encode() + rest);
        <(B, C)>::lemma_decode_encode(&others, rest);
    }

    proof fn lemma_decode_truncated(v: &(A, B, C), n: nat) {
        let others = (v.1, v.2);
        let ea = v.0.spec_encode();
        let t = v.spec_encode().take(n as int);
        if n < ea.len() {
            assert(t =~= ea.take(n as int));
            A::lemma_decode_truncated(&v.0, n);
        } else {
            let k = (n - ea.len()) as nat;
            assert(t =~= ea + others.spec_encode().take(k as int));
            A::lemma_decode_encode(&v.0, others.spec_encode().take(k as int));
            assert(tail(t, ea.len() as int) =~= others.spec_encode().take(k as int));
            <(B, C)>::lemma_decode_truncated(&others, k);
        }
    }

    proof fn lemma_decoded_encodable(s: Seq<u8>, v: &(A, B, C)) {
        A::lemma_decoded_encodable(s, &v.0);
        let n = A::spec_decode(s)->Ok_0.1;
        <(B, C)>::lemma_decoded_encodable(tail(s, n as int), &(v.1, v.2));
    }
}

impl<A: Serialize, B: Serialize, C: Serialize, D: Serialize> Serialize for (A, B, C, D) {
    open spec fn spec_encodable(&self) -> bool {
        &&& self.0.spec_encodable()
        &&& self.1.spec_encodable()
        &&& self.2.spec_encodable()
        &&& self.3.spec_encodable()
    }

    open spec fn spec_encode(&self) -> Seq<u8> {
        self.0.spec_encode() + (self.1, self.2, self.3).spec_encode()
    }

    fn can_serialize(&self) -> (r: bool) {
        self.0.can_serialize()
            && self.1.can_serialize()
            && self.2.can_serialize()
            && self.3.can_serialize()
    }

    fn size(&self) -> (r: usize) {
        self.0.size() + self.1.size() + self.2.size() + self.3.size()
    }

    fn serialize(&self, buf: &mut Bytes) {
        self.0.serialize(buf);
        self.1.serialize(buf);
        self.2.serialize(buf);
        self.3.serialize(buf);
        assert(buf@ =~= old(buf)@ + self.spec_encode());
    }

    proof fn lemma_encode_by_model(a: &(A, B, C, D), b: &(A, B, C, D)) {
        A::lemma_encode_by_model(&a.0, &b.0);
        <(B, C, D)>::lemma_encode_by_model(&(a.1, a.2, a.3), &(b.1, b.2, b.3));
    }
}

impl<A: Deserialize, B: Deserialize, C: Deserialize, D: Deserialize> Deserialize for (A, B, C, D) {
    open spec fn spec_decode(s: Seq<u8>) -> Result<
        (
            (
                <A as DeepView>::V,
                <B as DeepView>::V,
                <C as DeepView>::V,
                <D as DeepView>::V,
            ),
            nat,
        ),
        SerializeError,
    > {
        match A::spec_decode(s) {
            Err(e) => Err(e),
            Ok((a, n)) => match <(B, C, D)>::spec_decode(tail(s, n as int)) {
                Err(e) => Err(e),
                Ok(((b, c, d), m)) => Ok(((a, b, c, d), n + m)),
            },
        }
    }

    fn deserialize_from(buf: &Bytes, pos: usize) -> (r: Result<
        ((A, B, C, D), usize),
        SerializeError,
    >) {
        let (a, at) = match A::deserialize_from(buf, pos) {
            Ok(x) => x,
            Err(e) => return Err(e),
        };
        assert(tail(tail(buf@, pos as int), (at - pos) as int) =~= tail(buf@, at as int));
        let (others, end) = match <(B, C, D)>::deserialize_from(buf, at) {
            Ok(x) => x,
            Err(e) => return Err(e),
        };
        let (b, c, d) = others;
        Ok(((a, b, c, d), end))
    }

    proof fn lemma_decode_encode(v: &(A, B, C, D), rest: Seq<u8>) {
        let s = v.spec_encode() + rest;
        let others = (v.1, v.2, v.3);
        assert(s =~= v.0.spec_encode() + (others.spec_encode() + rest));
        A::lemma_decode_encode(&v.0, others.spec_encode() + rest);
        assert(tail(s, v.0.spec_encode().len() as int) =~= others.spec_encode() + rest);
        <(B, C, D)>::lemma_decode_encode(&others, rest);
    }

    proof fn lemma_decode_truncated(v: &(A, B, C, D), n: nat) {
        let others = (v.1, v.2, v.3);
        let ea = v.0.spec_encode();
        let t = v.spec_encode().take(n as int);
        if n < ea.len() {
            assert(t =~= ea.take(n as int));
            A::lemma_decode_truncated(&v.0, n);
        } else {
            let k = (n - ea.len()) as nat;
            assert(t =~= ea + others.spec_encode().take(k as int));
            A::lemma_decode_encode(&v.0, others.spec_encode().take(k as int));
            assert(tail(t, ea.len() as int) =~= others.spec_encode().take(k as int));
            <(B, C, D)>::lemma_decode_truncated(&others, k);
        }
    }

    proof fn lemma_decoded_encodable(s: Seq<u8>, v: &(A, B, C, D)) {
        A::lemma_decoded_encodable(s, &v.0);
        let n = A::spec_decode(s)->Ok_0.1;
        <(B, C, D)>::lemma_decoded_encodable(tail(s, n as int), &(v.1, v.2, v.3));
    }
}

impl<
    A: Serialize,
    B: Serialize,
    C: Serialize,
    D: Serialize,
    E: Serialize,
> Serialize for (A, B, C, D, E) {
    open spec fn spec_encodable(&self) -> bool {
        &&& self.0.spec_encodable()
        &&& self.1.spec_encodable()
        &&& self.2.spec_encodable()
        &&& self.3.spec_encodable()
        &&& self.4.spec_encodable()
    }

    open spec fn spec_encode(&self) -> Seq<u8> {
        self.0.spec_encode() + (self.1, self.2, self.3, self.4).spec_encode()
    }

    fn can_serialize(&self) -> (r: bool) {
        self.0.can_serialize()
            && self.1.can_serialize()
            && self.2.can_serialize()
            && self.3.can_serialize()
            && self.4.can_serialize()
    }

    fn size(&self) -> (r: usize) {
        self.0.size() + self.1.size() + self.2.size() + self.3.size() + self.4.size()
    }

    fn serialize(&self, buf: &mut Bytes) {
        self.0.serialize(buf);
        self.1.serialize(buf);
        self.2.serialize(buf);
        self.3.serialize(buf);
        self.4.serialize(buf);
        assert(buf@ =~= old(buf)@ + self.spec_encode());
    }

    proof fn lemma_encode_by_model(a: &(A, B, C, D, E), b: &(A, B, C, D, E)) {
        A::lemma_encode_by_model(&a.0, &b.0);
        <(B, C, D, E)>::lemma_encode_by_model(&(a.1, a.2, a.3, a.4), &(b.1, b.2, b.3, b.4));
    }
}

impl<
    A: Deserialize,
    B: Deserialize,
    C: Deserialize,
    D: Deserialize,
    E: Deserialize,
> Deserialize for (A, B, C, D, E) {
    open spec fn spec_decode(s: Seq<u8>) -> Result<
        (
            (
                <A as DeepView>::V,
                <B as DeepView>::V,
                <C as DeepView>::V,
                <D as DeepView>::V,
                <E as DeepView>::V,
            ),
            nat,
        ),
        SerializeError,
    > {
        match A::spec_decode(s) {
            Err(e) => Err(e),
            Ok((a, n)) => match <(B, C, D, E)>::spec_decode(tail(s, n as int)) {
                Err(e) => Err(e),
                Ok(((b, c, d, e), m)) => Ok(((a, b, c, d, e), n + m)),
            },
        }
    }

    fn deserialize_from(buf: &Bytes, pos: usize) -> (r: Result<
        ((A, B, C, D, E), usize),
        SerializeError,
    >) {
        let (a, at) = match A::deserialize_from(buf, pos) {
            Ok(x) => x,
            Err(e) => return Err(e),
        };
        assert(tail(tail(buf@, pos as int), (at - pos) as int) =~= tail(buf@, at as int));
        let (others, end) = match <(B, C, D, E)>::deserialize_from(buf, at) {
            Ok(x) => x,
            Err(e) => return Err(e),
        };
        let (b, c, d, e) = others;
        Ok(((a, b, c, d, e), end))
    }

    proof fn lemma_decode_encode(v: &(A, B, C, D, E), rest: Seq<u8>) {
        let s = v.spec_encode() + rest;
        let others = (v.1, v.2, v.3, v.4);
        assert(s =~= v.0.spec_encode() + (others.spec_encode() + rest));
        A::lemma_decode_encode(&v.0, others.spec_encode() + rest);
        assert(tail(s, v.0.spec_encode().len() as int) =~= others.spec_encode() + rest);
        <(B, C, D, E)>::lemma_decode_encode(&others, rest);
    }

    proof fn lemma_decode_truncated(v: &(A, B, C, D, E), n: nat) {
        let others = (v.1, v.2, v.3, v.4);
        let ea = v.0.spec_encode();
        let t = v.spec_encode().take(n as int);
        if n < ea.len() {
            assert(t =~= ea.take(n as int));
            A::lemma_decode_truncated(&v.0, n);
        } else {
            let k = (n - ea.len()) as nat;
            assert(t =~= ea + others.spec_encode().take(k as int));
            A::lemma_decode_encode(&v.0, others.spec_encode().take(k as int));
            assert(tail(t, ea.len() as int) =~= others.spec_encode().take(k as int));
            <(B, C, D, E)>::lemma_decode_truncated(&others, k);
        }
    }

    proof fn lemma_decoded_encodable(s: Seq<u8>, v: &(A, B, C, D, E)) {
        A::lemma_decoded_encodable(s, &v.0);
        let n = A::spec_decode(s)->Ok_0.1;
        <(B, C, D, E)>::lemma_decoded_encodable(tail(s, n as int), &(v.1, v.2, v.3, v.4));
    }
}

impl<
    A: Serialize,
    B: Serialize,
    C: Serialize,
    D: Serialize,
    E: Serialize,
    F: Serialize,
> Serialize for (A, B, C, D, E, F) {
    open spec fn spec_encodable(&self) -> bool {
        &&& self.0.spec_encodable()
        &&& self.1.spec_encodable()
        &&& self.2.spec_encodable()
        &&& self.3.spec_encodable()
        &&& self.4.spec_encodable()
        &&& self.5.spec_encodable()
    }

    open spec fn spec_encode(&self) -> Seq<u8> {
        self.0.spec_encode() + (self.1, self.2, self.3, self.4, self.5).spec_encode()
    }

    fn can_serialize(&self) -> (r: bool) {
        self.0.can_serialize()
            && self.1.can_serialize()
            && self.2.can_serialize()
            && self.3.can_serialize()
            && self.4.can_serialize()
            && self.5.can_serialize()
    }

    fn size(&self) -> (r: usize) {
        self.0.size()
            + self.1.size()
            + self.2.size()
            + self.3.size()
            + self.4.size()
            + self.5.size()
    }

    fn serialize(&self, buf: &mut Bytes) {
        self.0.serialize(buf);
        self.1.serialize(buf);
        self.2.serialize(buf);
        self.3.serialize(buf);
        self.4.serialize(buf);
        self.5.serialize(buf);
        assert(buf@ =~= old(buf)@ + self.spec_encode());
    }

    proof fn lemma_encode_by_model(a: &(A, B, C, D, E, F), b: &(A, B, C, D, E, F)) {
        A::lemma_encode_by_model(&a.0, &b.0);
        <(B, C, D, E, F)>::lemma_encode_by_model(
            &(a.1, a.2, a.3, a.4, a.5),
            &(b.1, b.2, b.3, b.4, b.5),
        );
    }
}

impl<
    A: Deserialize,
    B: Deserialize,
    C: Deserialize,
    D: Deserialize,
    E: Deserialize,
    F: Deserialize,
> Deserialize for (A, B, C, D, E, F) {
    open spec fn spec_decode(s: Seq<u8>) -> Result<
        (
            (
                <A as DeepView>::V,
                <B as DeepView>::V,
                <C as DeepView>::V,
                <D as DeepView>::V,
                <E as DeepView>::V,
                <F as DeepView>::V,
            ),
            nat,
        ),
        SerializeError,
    > {
        match A::spec_decode(s) {
            Err(e) => Err(e),
            Ok((a, n)) => match <(B, C, D, E, F)>::spec_decode(tail(s, n as int)) {
                Err(e) => Err(e),
                Ok(((b, c, d, e, f), m)) => Ok(((a, b, c, d, e, f), n + m)),
            },
        }
    }

    fn deserialize_from(buf: &Bytes, pos: usize) -> (r: Result<
        ((A, B, C, D, E, F), usize),
        SerializeError,
    >) {
        let (a, at) = match A::deserialize_from(buf, pos) {
            Ok(x) => x,
            Err(e) => return Err(e),
        };
        assert(tail(tail(buf@, pos as int), (at - pos) as int) =~= tail(buf@, at as int));
        let (others, end) = match <(B, C, D, E, F)>::deserialize_from(buf, at) {
            Ok(x) => x,
            Err(e) => return Err(e),
        };
        let (b, c, d, e, f) = others;
        Ok(((a, b, c, d, e, f), end))
    }

    proof fn lemma_decode_encode(v: &(A, B, C, D, E, F), rest: Seq<u8>) {
        let s = v.spec_encode() + rest;
        let others = (v.1, v.2, v.3, v.4, v.5);
        assert(s =~= v.0.spec_encode() + (others.spec_encode() + rest));
        A::lemma_decode_encode(&v.0, others.spec_encode() + rest);
        assert(tail(s, v.0.spec_encode().len() as int) =~= others.spec_encode() + rest);
        <(B, C, D, E, F)>::lemma_decode_encode(&others, rest);
    }

    proof fn lemma_decode_truncated(v: &(A, B, C, D, E, F), n: nat) {
        let others = (v.1, v.2, v.3, v.4, v.5);
        let ea = v.0.spec_encode();
        let t = v.spec_encode().take(n as int);
        if n < ea.len() {
            assert(t =~= ea.take(n as int));
            A::lemma_decode_truncated(&v.0, n);
        } else {
            let k = (n - ea.len()) as nat;
            assert(t =~= ea + others.spec_encode().take(k as int));
            A::lemma_decode_encode(&v.0, others.spec_encode().take(k as int));
            assert(tail(t, ea.len() as int) =~= others.spec_encode().take(k as int));
            <(B, C, D, E, F)>::lemma_decode_truncated(&others, k);
        }
    }

    proof fn lemma_decoded_encodable(s: Seq<u8>, v: &(A, B, C, D, E, F)) {
        A::lemma_decoded_encodable(s, &v.0);
        let n = A::spec_decode(s)->Ok_0.1;
        <(B, C, D, E, F)>::lemma_decoded_encodable(tail(s, n as int), &(v.1, v.2, v.3, v.4, v.5));
    }
}

} // verus!
