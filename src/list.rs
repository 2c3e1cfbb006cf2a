//! Values one after another: length-prefixed sequences (`Vec`) and
//! fixed-size arrays, which carry no prefix.
use crate::bigend::{be, from_be, lemma_be_len, lemma_from_be_bound, lemma_pow256_values};
use crate::bytes::Bytes;
use crate::codec::{decoded, fails_with, tail, Deserialize, Serialize};
use crate::error::SerializeError;
use crate::primitive::{decode_uint, lemma_decode_uint, lemma_decode_uint_short, read_uint};
use vstd::prelude::*;

verus! {

/// The largest number of elements that a sequence's two-byte count holds.
pub const MAX_ELEMENTS: usize = 65535;

/// The bytes of the values of `vs`, one after another.
pub open spec fn encode_all<T: Serialize>(vs: Seq<T>) -> Seq<u8>
    decreases vs.len(),
{
    if vs.len() == 0 {
        Seq::empty()
    } else {
        encode_all(vs.drop_last()) + vs.last().spec_encode()
    }
}

/// Whether each value of `vs` can be written.
pub open spec fn all_encodable<T: Serialize>(vs: Seq<T>) -> bool {
    forall|i: int| 0 <= i < vs.len() ==> #[trigger] vs[i].spec_encodable()
}

/// The models of the values of `vs`.
pub open spec fn models<T: DeepView>(vs: Seq<T>) -> Seq<<T as DeepView>::V> {
    Seq::new(vs.len(), |i: int| vs[i].deep_view())
}

/// What the front of `s` gives as `k` values of `T` one after another: their
/// models and the bytes they take, or the first failure.
pub open spec fn decode_n<T: Deserialize>(s: Seq<u8>, k: nat) -> Result<
    (Seq<<T as DeepView>::V>, nat),
    SerializeError,
>
    decreases k,
{
    if k == 0 {
        Ok((Seq::empty(), 0))
    } else {
        match decode_n::<T>(s, (k - 1) as nat) {
            Err(e) => Err(e),
            Ok((vs, n)) => match T::spec_decode(tail(s, n as int)) {
                Err(e) => Err(e),
                Ok((v, m)) => Ok((vs.push(v), n + m)),
            },
        }
    }
}

pub proof fn lemma_encode_all_step<T: Serialize>(vs: Seq<T>, i: int)
    requires
        0 <= i < vs.len(),
    ensures
        encode_all(vs.take(i + 1)) == encode_all(vs.take(i)) + vs[i].spec_encode(),
{
    assert(vs.take(i + 1).drop_last() =~= vs.take(i));
}

/// The bytes of a prefix of the values are no longer than those of all, nor
/// are those of one value.
pub proof fn lemma_encode_all_prefix<T: Serialize>(vs: Seq<T>, i: int)
    requires
        0 <= i <= vs.len(),
    ensures
        encode_all(vs.take(i)).len() <= encode_all(vs).len(),
        i < vs.len() ==> encode_all(vs.take(i)).len() + vs[i].spec_encode().len() <= encode_all(
            vs,
        ).len(),
    decreases vs.len(),
{
    if i < vs.len() {
        let w = vs.drop_last();
        assert(vs.take(vs.len() as int) =~= vs);
        if i < w.len() {
            lemma_encode_all_prefix(w, i);
            assert(w.take(i) =~= vs.take(i));
            assert(w[i] == vs[i]);
        } else {
            assert(w =~= vs.take(i));
        }
    } else {
        assert(vs.take(i) =~= vs);
    }
}

/// A failure among the first `j` values is the failure of the first `k`.
pub proof fn lemma_decode_n_err<T: Deserialize>(s: Seq<u8>, j: nat, k: nat)
    requires
        j <= k,
        decode_n::<T>(s, j) is Err,
    ensures
        decode_n::<T>(s, k) == decode_n::<T>(s, j),
    decreases k,
{
    if j < k {
        lemma_decode_n_err::<T>(s, j, (k - 1) as nat);
    }
}

/// The bytes of values, whatever follows them, decode to those values.
pub proof fn lemma_decode_n_encode_all<T: Deserialize>(vs: Seq<T>, rest: Seq<u8>)
    requires
        all_encodable(vs),
    ensures
        decode_n::<T>(encode_all(vs) + rest, vs.len()) == decoded(
            models(vs),
            encode_all(vs).len(),
        ),
    decreases vs.len(),
{
    if vs.len() > 0 {
        let w = vs.drop_last();
        let x = vs.last();
        let s = encode_all(vs) + rest;
        assert(all_encodable(w)) by {
            assert forall|i: int| 0 <= i < w.len() implies #[trigger] w[i].spec_encodable() by {
                assert(w[i] == vs[i]);
            }
        }
        assert(vs[vs.len() - 1].spec_encodable());
        assert(s =~= encode_all(w) + (x.spec_encode() + rest));
        lemma_decode_n_encode_all::<T>(w, x.spec_encode() + rest);
        assert(tail(s, encode_all(w).len() as int) =~= x.spec_encode() + rest);
        T::lemma_decode_encode(&x, rest);
        assert(models(w).push(x.deep_view()) =~= models(vs));
    } else {
        assert(models(vs) =~= Seq::<<T as DeepView>::V>::empty());
    }
}

/// The bytes of values cut short fail to decode as that many values.
pub proof fn lemma_decode_n_truncated<T: Deserialize>(vs: Seq<T>, n: nat)
    requires
        all_encodable(vs),
        n < encode_all(vs).len(),
    ensures
        fails_with(
            decode_n::<T>(encode_all(vs).take(n as int), vs.len()),
            SerializeError::TruncatedInput,
        ),
    decreases vs.len(),
{
    let w = vs.drop_last();
    let x = vs.last();
    let a = encode_all(w);
    let t = encode_all(vs).take(n as int);
    assert(all_encodable(w)) by {
        assert forall|i: int| 0 <= i < w.len() implies #[trigger] w[i].spec_encodable() by {
            assert(w[i] == vs[i]);
        }
    }
    assert(vs[vs.len() - 1].spec_encodable());
    if n < a.len() {
        assert(t =~= a.take(n as int));
        lemma_decode_n_truncated::<T>(w, n);
        lemma_decode_n_err::<T>(t, w.len(), vs.len());
    } else {
        let k = (n - a.len()) as nat;
        assert(t =~= a + x.spec_encode().take(k as int));
        lemma_decode_n_encode_all::<T>(w, x.spec_encode().take(k as int));
        assert(tail(t, a.len() as int) =~= x.spec_encode().take(k as int));
        T::lemma_decode_truncated(&x, k);
    }
}

/// Values with the same models have the same bytes.
pub proof fn lemma_encode_all_by_models<T: Serialize>(vs: Seq<T>, ws: Seq<T>)
    requires
        models(vs) == models(ws),
    ensures
        all_encodable(vs) == all_encodable(ws),
        encode_all(vs) == encode_all(ws),
    decreases vs.len(),
{
    assert(vs.len() == models(vs).len() && ws.len() == models(ws).len());
    assert forall|i: int| 0 <= i < vs.len() implies #[trigger] vs[i].spec_encodable()
        == ws[i].spec_encodable() && vs[i].spec_encode() == ws[i].spec_encode() by {
        assert(models(vs)[i] == vs[i].deep_view());
        assert(models(ws)[i] == ws[i].deep_view());
        T::lemma_encode_by_model(&vs[i], &ws[i]);
    }
    if vs.len() > 0 {
        let (v2, w2) = (vs.drop_last(), ws.drop_last());
        assert(models(v2) =~= models(w2)) by {
            assert forall|i: int| 0 <= i < v2.len() implies models(v2)[i] == models(w2)[i] by {
                assert(models(vs)[i] == vs[i].deep_view());
                assert(models(ws)[i] == ws[i].deep_view());
                assert(v2[i] == vs[i] && w2[i] == ws[i]);
            }
        }
        lemma_encode_all_by_models(v2, w2);
        assert(all_encodable(vs) == all_encodable(ws)) by {
            if all_encodable(vs) {
                assert forall|i: int| 0 <= i < ws.len() implies #[trigger] ws[i].spec_encodable()
                by {
                    assert(vs[i].spec_encodable());
                }
            }
            if all_encodable(ws) {
                assert forall|i: int| 0 <= i < vs.len() implies #[trigger] vs[i].spec_encodable()
                by {
                    assert(ws[i].spec_encodable());
                }
            }
        }
        let j = vs.len() - 1;
        assert(models(vs)[j] == vs[j].deep_view() && models(ws)[j] == ws[j].deep_view());
        T::lemma_encode_by_model(&vs[j], &ws[j]);
    }
}

/// Values whose models some bytes decode to can each be written.
pub proof fn lemma_decode_n_encodable<T: Deserialize>(s: Seq<u8>, k: nat, vs: Seq<T>)
    requires
        decode_n::<T>(s, k) matches Ok((ms, _)) && ms == models(vs),
    ensures
        vs.len() == k,
        all_encodable(vs),
    decreases k,
{
    assert(vs.len() == models(vs).len());
    if k > 0 {
        let prev = decode_n::<T>(s, (k - 1) as nat);
        assert(prev is Ok);
        let (ms, n) = prev->Ok_0;
        let next = T::spec_decode(tail(s, n as int));
        assert(next is Ok);
        let m = next->Ok_0.0;
        assert(models(vs) == ms.push(m));
        let w = vs.drop_last();
        assert(models(w) =~= ms) by {
            assert forall|i: int| 0 <= i < w.len() implies models(w)[i] == ms[i] by {
                assert(models(vs)[i] == vs[i].deep_view());
                assert(ms.push(m)[i] == ms[i]);
                assert(w[i] == vs[i]);
            }
        }
        lemma_decode_n_encodable::<T>(s, (k - 1) as nat, w);
        assert(models(vs)[vs.len() - 1] == vs[vs.len() - 1].deep_view());
        T::lemma_decoded_encodable(tail(s, n as int), &vs[vs.len() - 1]);
        assert forall|i: int| 0 <= i < vs.len() implies #[trigger] vs[i].spec_encodable() by {
            if i < w.len() {
                assert(w[i] == vs[i]);
                assert(w[i].spec_encodable());
            }
        }
    }
}

/// Appends the bytes of each value of `vs`.
pub(crate) fn serialize_all<T: Serialize>(vs: &[T], buf: &mut Bytes)
    requires
        all_encodable(vs@),
    ensures
        final(buf)@ == old(buf)@ + encode_all(vs@),
        final(buf).cursor() == old(buf).cursor(),
{
    let n = vs.len();
    let mut i: usize = 0;
    while i < n
        invariant
            n == vs@.len(),
            i <= n,
            all_encodable(vs@),
            buf@ == old(buf)@ + encode_all(vs@.take(i as int)),
            buf.cursor() == old(buf).cursor(),
        decreases n - i,
    {
        proof {
            lemma_encode_all_step(vs@, i as int);
        }
        assert(vs@[i as int].spec_encodable());
        vs[i].serialize(buf);
        i = i + 1;
    }
    assert(vs@.take(n as int) =~= vs@);
}

/// Whether each value of `vs` can be written.
pub(crate) fn all_can_serialize<T: Serialize>(vs: &[T]) -> (r: bool)
    ensures
        r == all_encodable(vs@),
{
    let n = vs.len();
    let mut i: usize = 0;
    while i < n
        invariant
            n == vs@.len(),
            i <= n,
            forall|j: int| 0 <= j < i ==> #[trigger] vs@[j].spec_encodable(),
        decreases n - i,
    {
        if !vs[i].can_serialize() {
            return false;
        }
        i = i + 1;
    }
    true
}

/// The number of bytes of the values of `vs`.
pub(crate) fn size_all<T: Serialize>(vs: &[T]) -> (r: usize)
    requires
        all_encodable(vs@),
        encode_all(vs@).len() <= usize::MAX,
    ensures
        r == encode_all(vs@).len(),
{
    let n = vs.len();
    let mut total: usize = 0;
    let mut i: usize = 0;
    while i < n
        invariant
            n == vs@.len(),
            i <= n,
            all_encodable(vs@),
            encode_all(vs@).len() <= usize::MAX,
            total == encode_all(vs@.take(i as int)).len(),
        decreases n - i,
    {
        proof {
            lemma_encode_all_step(vs@, i as int);
            lemma_encode_all_prefix(vs@, i as int);
        }
        assert(vs@[i as int].spec_encodable());
        total = total + vs[i].size();
        i = i + 1;
    }
    assert(vs@.take(n as int) =~= vs@);
    total
}

/// Decodes `k` values one after another from `pos` on.
pub(crate) fn deserialize_n<T: Deserialize>(buf: &Bytes, pos: usize, k: usize) -> (r: Result<
    (Vec<T>, usize),
    SerializeError,
>)
    requires
        pos <= buf@.len(),
    ensures
        match r {
            Ok((vs, end)) => {
                &&& pos <= end <= buf@.len()
                &&& vs@.len() == k
                &&& decode_n::<T>(tail(buf@, pos as int), k as nat) == decoded(
                    models(vs@),
                    (end - pos) as nat,
                )
            },
            Err(e) => fails_with(decode_n::<T>(tail(buf@, pos as int), k as nat), e),
        },
{
    let ghost s = tail(buf@, pos as int);
    let mut out: Vec<T> = Vec::new();
    let mut at = pos;
    let mut i: usize = 0;
    assert(models(out@) =~= Seq::<<T as DeepView>::V>::empty());
    while i < k
        invariant
            pos <= at <= buf@.len(),
            i <= k,
            s == tail(buf@, pos as int),
            out@.len() == i,
            decode_n::<T>(s, i as nat) == decoded(models(out@), (at - pos) as nat),
        decreases k - i,
    {
        assert(tail(s, (at - pos) as int) =~= tail(buf@, at as int));
        match T::deserialize_from(buf, at) {
            Ok((v, end)) => {
                proof {
                    assert(models(out@).push(v.deep_view()) =~= models(out@.push(v)));
                }
                out.push(v);
                at = end;
                i = i + 1;
            },
            Err(e) => {
                proof {
                    lemma_decode_n_err::<T>(s, (i + 1) as nat, k as nat);
                }
                return Err(e);
            },
        }
    }
    Ok((out, at))
}

impl<T: Serialize> Serialize for Vec<T> {
    /// At most `MAX_ELEMENTS` elements, each of which can be written.
    open spec fn spec_encodable(&self) -> bool {
        &&& self@.len() <= MAX_ELEMENTS
        &&& all_encodable(self@)
    }

    /// A two-byte count, then the elements in order.
    open spec fn spec_encode(&self) -> Seq<u8> {
        be(self@.len(), 2) + encode_all(self@)
    }

    fn can_serialize(&self) -> (r: bool) {
        self.len() <= MAX_ELEMENTS && all_can_serialize(self.as_slice())
    }

    fn size(&self) -> (r: usize) {
        proof {
            lemma_be_len(self@.len(), 2);
        }
        2 + size_all(self.as_slice())
    }

    fn serialize(&self, buf: &mut Bytes) {
        buf.push_be(self.len() as u64, 2);
        serialize_all(self.as_slice(), buf);
        assert(buf@ =~= old(buf)@ + self.spec_encode());
    }

    proof fn lemma_encode_by_model(a: &Vec<T>, b: &Vec<T>) {
        assert(models(a@) =~= a.deep_view());
        assert(models(b@) =~= b.deep_view());
        lemma_encode_all_by_models(a@, b@);
    }
}

impl<T: Deserialize> Deserialize for Vec<T> {
    open spec fn spec_decode(s: Seq<u8>) -> Result<(Seq<<T as DeepView>::V>, nat), SerializeError> {
        match decode_uint(s, 2) {
            Err(e) => Err(e),
            Ok((count, w)) => match decode_n::<T>(s.skip(2), count) {
                Err(e) => Err(e),
                Ok((vs, n)) => Ok((vs, 2 + n)),
            },
        }
    }

    fn deserialize_from(buf: &Bytes, pos: usize) -> (r: Result<(Vec<T>, usize), SerializeError>) {
        proof {
            lemma_pow256_values();
        }
        let (count, at) = match read_uint(buf, pos, 2) {
            Ok(x) => x,
            Err(e) => return Err(e),
        };
        assert(tail(buf@, pos as int).skip(2) =~= tail(buf@, at as int));
        match deserialize_n::<T>(buf, at, count as usize) {
            Ok((vs, end)) => {
                assert(models(vs@) =~= vs.deep_view());
                Ok((vs, end))
            },
            Err(e) => Err(e),
        }
    }

    proof fn lemma_decode_encode(v: &Vec<T>, rest: Seq<u8>) {
        lemma_pow256_values();
        let s = v.spec_encode() + rest;
        assert(s =~= be(v@.len(), 2) + (encode_all(v@) + rest));
        lemma_decode_uint(v@.len(), 2, encode_all(v@) + rest);
        assert(s.skip(2) =~= encode_all(v@) + rest);
        lemma_decode_n_encode_all::<T>(v@, rest);
        assert(models(v@) =~= v.deep_view());
    }

    proof fn lemma_decode_truncated(v: &Vec<T>, n: nat) {
        lemma_pow256_values();
        lemma_be_len(v@.len(), 2);
        let t = v.spec_encode().take(n as int);
        if n < 2 {
            lemma_decode_uint_short(t, 2);
        } else {
            let k = (n - 2) as nat;
            assert(t =~= be(v@.len(), 2) + encode_all(v@).take(k as int));
            lemma_decode_uint(v@.len(), 2, encode_all(v@).take(k as int));
            assert(t.skip(2) =~= encode_all(v@).take(k as int));
            lemma_decode_n_truncated::<T>(v@, k);
        }
    }

    proof fn lemma_decoded_encodable(s: Seq<u8>, v: &Vec<T>) {
        lemma_pow256_values();
        lemma_from_be_bound(s.take(2));
        assert(models(v@) =~= v.deep_view());
        lemma_decode_n_encodable::<T>(s.skip(2), from_be(s.take(2)), v@);
    }
}

/// Relies on std's `TryFrom<Vec<T>>` for `[T; N]`: it succeeds exactly when
/// the vector holds `N` elements, and keeps them in order.
#[verifier::external_body]
fn array_from_vec<T, const N: usize>(v: Vec<T>) -> (r: Option<[T; N]>)
    ensures
        r is Some <==> v@.len() == N,
        r matches Some(a) ==> a@ == v@,
{
    <[T; N]>::try_from(v).ok()
}

impl<T: Serialize, const N: usize> Serialize for [T; N] {
    open spec fn spec_encodable(&self) -> bool {
        all_encodable(self@)
    }

    /// The `N` elements in order, with no prefix.
    open spec fn spec_encode(&self) -> Seq<u8> {
        encode_all(self@)
    }

    fn can_serialize(&self) -> (r: bool) {
        all_can_serialize(self.as_slice())
    }

    fn size(&self) -> (r: usize) {
        size_all(self.as_slice())
    }

    fn serialize(&self, buf: &mut Bytes) {
        serialize_all(self.as_slice(), buf);
    }

    proof fn lemma_encode_by_model(a: &[T; N], b: &[T; N]) {
        assert(models(a@) =~= a.deep_view());
        assert(models(b@) =~= b.deep_view());
        lemma_encode_all_by_models(a@, b@);
    }
}

impl<T: Deserialize, const N: usize> Deserialize for [T; N] {
    open spec fn spec_decode(s: Seq<u8>) -> Result<(Seq<<T as DeepView>::V>, nat), SerializeError> {
        decode_n::<T>(s, N as nat)
    }

    fn deserialize_from(buf: &Bytes, pos: usize) -> (r: Result<([T; N], usize), SerializeError>) {
        if pos > buf.len() {
            return Err(SerializeError::TruncatedInput);
        }
        match deserialize_n::<T>(buf, pos, N) {
            Ok((vs, end)) => match array_from_vec::<T, N>(vs) {
                Some(a) => {
                    assert(models(a@) =~= a.deep_view());
                    Ok((a, end))
                },
                None => Err(SerializeError::InvalidEncoding),
            },
            Err(e) => Err(e),
        }
    }

    proof fn lemma_decode_encode(v: &[T; N], rest: Seq<u8>) {
        lemma_decode_n_encode_all::<T>(v@, rest);
        assert(models(v@) =~= v.deep_view());
    }

    proof fn lemma_decode_truncated(v: &[T; N], n: nat) {
        lemma_decode_n_truncated::<T>(v@, n);
    }

    proof fn lemma_decoded_encodable(s: Seq<u8>, v: &[T; N]) {
        assert(models(v@) =~= v.deep_view());
        lemma_decode_n_encodable::<T>(s, N as nat, v@);
    }
}

} // verus!
