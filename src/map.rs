//! A map from keys to values kept as its entries, one per key, in the order
//! in which the keys first came. Keys are told apart by their models, which
//! values with the same bytes share. It is written as a two-byte count of
//! entries, then each key and its value; when it is read back, a later entry
//! for a key takes the place of an earlier one.
use crate::bigend::{be, from_be, lemma_be_len, lemma_from_be_bound, lemma_pow256_values};
use crate::bytes::Bytes;
use crate::codec::{decoded, tail, Deserialize, Serialize};
use crate::error::SerializeError;
use crate::list::{
    all_can_serialize, all_encodable, decode_n, encode_all, lemma_decode_n_encode_all,
    lemma_decode_n_err, lemma_decode_n_truncated, lemma_encode_all_by_models, models, serialize_all,
    size_all,
};
use crate::primitive::{decode_uint, lemma_decode_uint, lemma_decode_uint_short, read_uint};
use vstd::prelude::*;

verus! {

/// The largest number of entries that a map's two-byte count holds.
pub const MAX_ENTRIES: usize = 65535;

/// The position of the last entry of `es` whose key is `k`, or `-1`.
pub open spec fn index_of_key<A, B>(es: Seq<(A, B)>, k: A) -> int
    decreases es.len(),
{
    if es.len() == 0 {
        -1
    } else if es.last().0 == k {
        es.len() - 1
    } else {
        index_of_key(es.drop_last(), k)
    }
}

/// Whether no two entries of `es` have the same key.
pub open spec fn keys_unique<A, B>(es: Seq<(A, B)>) -> bool {
    forall|i: int, j: int| 0 <= i < j < es.len() ==> es[i].0 != es[j].0
}

/// `es` with `k` mapped to `v`: in the place of the entry for `k` if there is
/// one, else as a new last entry.
pub open spec fn insert_entry<A, B>(es: Seq<(A, B)>, k: A, v: B) -> Seq<(A, B)> {
    let i = index_of_key(es, k);
    if i >= 0 {
        es.update(i, (k, v))
    } else {
        es.push((k, v))
    }
}

/// The entries that inserting the pairs of `ps`, in order, into `es` gives.
pub open spec fn insert_all<A, B>(es: Seq<(A, B)>, ps: Seq<(A, B)>) -> Seq<(A, B)>
    decreases ps.len(),
{
    if ps.len() == 0 {
        es
    } else {
        insert_entry(insert_all(es, ps.drop_last()), ps.last().0, ps.last().1)
    }
}

/// The value of `k` among the entries `es`, if it has one.
pub open spec fn lookup<A, B>(es: Seq<(A, B)>, k: A) -> Option<B> {
    let i = index_of_key(es, k);
    if i >= 0 {
        Some(es[i].1)
    } else {
        None
    }
}

pub proof fn lemma_index_of_key_range<A, B>(es: Seq<(A, B)>, k: A)
    ensures
        -1 <= index_of_key(es, k) < es.len(),
        index_of_key(es, k) >= 0 ==> es[index_of_key(es, k)].0 == k,
        index_of_key(es, k) == -1 <==> forall|j: int| 0 <= j < es.len() ==> es[j].0 != k,
    decreases es.len(),
{
    if es.len() > 0 {
        lemma_index_of_key_range(es.drop_last(), k);
        if es.last().0 != k {
            assert forall|j: int| 0 <= j < es.len() - 1 implies es[j] == es.drop_last()[j] by {}
        }
    }
}

/// With unique keys, the entry for the key of entry `i` is entry `i`.
pub proof fn lemma_index_of_unique<A, B>(es: Seq<(A, B)>, i: int)
    requires
        keys_unique(es),
        0 <= i < es.len(),
    ensures
        index_of_key(es, es[i].0) == i,
{
    lemma_index_of_key_range(es, es[i].0);
}

pub proof fn lemma_insert_entry_unique<A, B>(es: Seq<(A, B)>, k: A, v: B)
    requires
        keys_unique(es),
    ensures
        keys_unique(insert_entry(es, k, v)),
        insert_entry(es, k, v).len() <= es.len() + 1,
        forall|x: (A, B)| #[trigger]
            insert_entry(es, k, v).contains(x) ==> es.contains(x) || x == (k, v),
{
    lemma_index_of_key_range(es, k);
    let r = insert_entry(es, k, v);
    assert forall|x: (A, B)| #[trigger] r.contains(x) implies es.contains(x) || x == (k, v) by {
        let j = choose|j: int| 0 <= j < r.len() && r[j] == x;
        if x != (k, v) {
            assert(es[j] == x);
        }
    }
}

pub proof fn lemma_insert_all<A, B>(ps: Seq<(A, B)>)
    ensures
        keys_unique(insert_all(Seq::empty(), ps)),
        insert_all(Seq::empty(), ps).len() <= ps.len(),
        forall|x: (A, B)| #[trigger] insert_all(Seq::empty(), ps).contains(x) ==> ps.contains(x),
    decreases ps.len(),
{
    if ps.len() > 0 {
        let prev = ps.drop_last();
        lemma_insert_all(prev);
        let es = insert_all(Seq::empty(), prev);
        lemma_insert_entry_unique(es, ps.last().0, ps.last().1);
        let all = insert_all(Seq::empty(), ps);
        assert forall|x: (A, B)| #[trigger] all.contains(x) implies ps.contains(x) by {
            if es.contains(x) {
                let j = choose|j: int| 0 <= j < prev.len() && prev[j] == x;
                assert(ps[j] == x);
            } else {
                assert(ps[ps.len() - 1] == x);
            }
        }
    }
}

/// Inserting pairs whose keys are unique gives those pairs.
pub proof fn lemma_insert_all_unique<A, B>(ps: Seq<(A, B)>)
    requires
        keys_unique(ps),
    ensures
        insert_all(Seq::empty(), ps) == ps,
    decreases ps.len(),
{
    if ps.len() > 0 {
        let prev = ps.drop_last();
        lemma_insert_all_unique(prev);
        lemma_index_of_key_range(prev, ps.last().0);
        assert forall|j: int| 0 <= j < prev.len() implies prev[j].0 != ps.last().0 by {
            assert(prev[j] == ps[j]);
        }
        assert(prev.push(ps.last()) =~= ps);
    }
}

/// A value whose model is among those that some bytes decode to can be written.
pub proof fn lemma_decode_n_member_encodable<T: Deserialize>(s: Seq<u8>, k: nat, x: &T)
    requires
        decode_n::<T>(s, k) matches Ok((ms, _)) && ms.contains(x.deep_view()),
    ensures
        x.spec_encodable(),
    decreases k,
{
    if k > 0 {
        let (ms, n) = decode_n::<T>(s, (k - 1) as nat)->Ok_0;
        let m = T::spec_decode(tail(s, n as int))->Ok_0.0;
        if ms.contains(x.deep_view()) {
            lemma_decode_n_member_encodable::<T>(s, (k - 1) as nat, x);
        } else {
            let all = ms.push(m);
            let j = choose|j: int| 0 <= j < all.len() && all[j] == x.deep_view();
            if j < ms.len() {
                assert(ms[j] == all[j]);
            }
            T::lemma_decoded_encodable(tail(s, n as int), x);
        }
    }
}

/// Decoding `k` values gives `k` models.
pub proof fn lemma_decode_n_len<T: Deserialize>(s: Seq<u8>, k: nat)
    requires
        decode_n::<T>(s, k) is Ok,
    ensures
        decode_n::<T>(s, k)->Ok_0.0.len() == k,
    decreases k,
{
    if k > 0 {
        lemma_decode_n_len::<T>(s, (k - 1) as nat);
    }
}

/// A map whose entries are kept in the order in which their keys first came.
#[derive(Debug)]
pub struct Dict<K, V> {
    entries: Vec<(K, V)>,
}

impl<K, V> Dict<K, V> {
    /// The entries, in order.
    pub closed spec fn entries(&self) -> Seq<(K, V)> {
        self.entries@
    }
}

impl<K: DeepView, V: DeepView> DeepView for Dict<K, V> {
    type V = Seq<(<K as DeepView>::V, <V as DeepView>::V)>;

    /// The models of the entries, in order.
    open spec fn deep_view(&self) -> Seq<(<K as DeepView>::V, <V as DeepView>::V)> {
        models(self.entries())
    }
}

impl<K: Deserialize, V: Serialize> Dict<K, V> {
    /// No two entries have keys with the same model, and each key can be
    /// written.
    pub open spec fn wf(&self) -> bool {
        &&& keys_unique(self.deep_view())
        &&& forall|i: int|
            0 <= i < self.entries().len() ==> #[trigger] self.entries()[i].0.spec_encodable()
    }

    /// An empty map.
    pub fn new() -> (r: Self)
        ensures
            r.wf(),
            r.deep_view() == Seq::<(<K as DeepView>::V, <V as DeepView>::V)>::empty(),
    {
        let r = Dict { entries: Vec::new() };
        assert(r.deep_view() =~= Seq::<(<K as DeepView>::V, <V as DeepView>::V)>::empty());
        r
    }

    /// The number of entries.
    pub fn len(&self) -> (r: usize)
        ensures
            r == self.deep_view().len(),
    {
        self.entries.len()
    }

    /// The position of the entry whose key has the same bytes as `key`.
    fn position(&self, key: &K) -> (r: Option<usize>)
        requires
            self.wf(),
            key.spec_encodable(),
        ensures
            match r {
                Some(i) => index_of_key(self.deep_view(), key.deep_view()) == i,
                None => index_of_key(self.deep_view(), key.deep_view()) == -1,
            },
    {
        let mut wanted = Bytes::new();
        key.serialize(&mut wanted);
        let n = self.entries.len();
        let mut i: usize = 0;
        while i < n
            invariant
                n == self.entries@.len(),
                i <= n,
                self.wf(),
                key.spec_encodable(),
                wanted@ == key.spec_encode(),
                forall|j: int| 0 <= j < i ==> self.deep_view()[j].0 != key.deep_view(),
            decreases n - i,
        {
            let mut found = Bytes::new();
            assert(self.entries@[i as int].0.spec_encodable());
            self.entries[i].0.serialize(&mut found);
            assert(self.deep_view()[i as int] == self.entries@[i as int].deep_view());
            if wanted.same_bytes(&found) {
                proof {
                    K::lemma_decode_encode(key, Seq::empty());
                    K::lemma_decode_encode(&self.entries@[i as int].0, Seq::empty());
                    lemma_index_of_unique(self.deep_view(), i as int);
                }
                return Some(i);
            }
            proof {
                if self.deep_view()[i as int].0 == key.deep_view() {
                    K::lemma_encode_by_model(key, &self.entries@[i as int].0);
                }
            }
            i = i + 1;
        }
        proof {
            lemma_index_of_key_range(self.deep_view(), key.deep_view());
        }
        None
    }

    /// Maps `key` to `value`: in the place of the entry for the key if there
    /// is one, else as a new last entry.
    pub fn insert(&mut self, key: K, value: V)
        requires
            old(self).wf(),
            key.spec_encodable(),
        ensures
            final(self).wf(),
            final(self).deep_view() == insert_entry(
                old(self).deep_view(),
                key.deep_view(),
                value.deep_view(),
            ),
    {
        proof {
            lemma_index_of_key_range(self.deep_view(), key.deep_view());
            lemma_insert_entry_unique(self.deep_view(), key.deep_view(), value.deep_view());
        }
        match self.position(&key) {
            Some(i) => {
                self.entries.set(i, (key, value));
                assert(self.deep_view() =~= insert_entry(
                    old(self).deep_view(),
                    key.deep_view(),
                    value.deep_view(),
                ));
            },
            None => {
                self.entries.push((key, value));
                assert(self.deep_view() =~= insert_entry(
                    old(self).deep_view(),
                    key.deep_view(),
                    value.deep_view(),
                ));
            },
        }
    }

    /// Whether no two keys have the same model, when each key can be written.
    fn keys_distinct(&self) -> (r: bool)
        requires
            forall|i: int|
                0 <= i < self.entries@.len() ==> #[trigger] self.entries@[i].0.spec_encodable(),
        ensures
            r == keys_unique(self.deep_view()),
    {
        let n = self.entries.len();
        let ghost dv = self.deep_view();
        let mut encoded: Vec<Bytes> = Vec::new();
        let mut i: usize = 0;
        while i < n
            invariant
                n == self.entries@.len() == dv.len(),
                dv == self.deep_view(),
                i <= n,
                encoded@.len() == i,
                forall|j: int| 0 <= j < n ==> #[trigger] self.entries@[j].0.spec_encodable(),
                forall|j: int|
                    0 <= j < i ==> #[trigger] encoded@[j]@ == self.entries@[j].0.spec_encode(),
                forall|a: int, b: int| 0 <= a < b < i ==> dv[a].0 != dv[b].0,
            decreases n - i,
        {
            let mut current = Bytes::new();
            assert(self.entries@[i as int].0.spec_encodable());
            self.entries[i].0.serialize(&mut current);
            let mut j: usize = 0;
            while j < i
                invariant
                    n == self.entries@.len() == dv.len(),
                    dv == self.deep_view(),
                    j <= i < n,
                    encoded@.len() == i,
                    current@ == self.entries@[i as int].0.spec_encode(),
                    forall|k: int| 0 <= k < n ==> #[trigger] self.entries@[k].0.spec_encodable(),
                    forall|k: int|
                        0 <= k < i ==> #[trigger] encoded@[k]@ == self.entries@[k].0.spec_encode(),
                    forall|a: int| 0 <= a < j ==> dv[a].0 != dv[i as int].0,
                decreases i - j,
            {
                assert(dv[j as int] == self.entries@[j as int].deep_view());
                assert(dv[i as int] == self.entries@[i as int].deep_view());
                if encoded[j].same_bytes(&current) {
                    proof {
                        K::lemma_decode_encode(&self.entries@[j as int].0, Seq::empty());
                        K::lemma_decode_encode(&self.entries@[i as int].0, Seq::empty());
                    }
                    return false;
                }
                proof {
                    if dv[j as int].0 == dv[i as int].0 {
                        K::lemma_encode_by_model(
                            &self.entries@[j as int].0,
                            &self.entries@[i as int].0,
                        );
                    }
                }
                j = j + 1;
            }
            encoded.push(current);
            i = i + 1;
        }
        true
    }

    /// The value of `key`, if it has an entry.
    pub fn get(&self, key: &K) -> (r: Option<&V>)
        requires
            self.wf(),
            key.spec_encodable(),
        ensures
            match r {
                Some(v) => lookup(self.deep_view(), key.deep_view()) == Some(v.deep_view()),
                None => lookup(self.deep_view(), key.deep_view()) is None,
            },
    {
        match self.position(key) {
            Some(i) => {
                proof {
                    lemma_index_of_key_range(self.deep_view(), key.deep_view());
                }
                assert(self.deep_view()[i as int] == self.entries@[i as int].deep_view());
                Some(&self.entries[i].1)
            },
            None => None,
        }
    }
}

impl<K: Deserialize, V: Serialize> Serialize for Dict<K, V> {
    /// Keys with distinct models, at most `MAX_ENTRIES` entries, and each key
    /// and value can be written.
    open spec fn spec_encodable(&self) -> bool {
        &&& keys_unique(self.deep_view())
        &&& self.entries().len() <= MAX_ENTRIES
        &&& all_encodable(self.entries())
    }

    fn can_serialize(&self) -> (r: bool) {
        if self.entries.len() > MAX_ENTRIES || !all_can_serialize(self.entries.as_slice()) {
            return false;
        }
        assert forall|i: int| 0 <= i < self.entries@.len() implies #[trigger] self.entries@[
            i
        ].0.spec_encodable() by {
            assert(self.entries@[i].spec_encodable());
        }
        self.keys_distinct()
    }

    /// A two-byte count, then each entry's key and value, in order.
    open spec fn spec_encode(&self) -> Seq<u8> {
        be(self.entries().len(), 2) + encode_all(self.entries())
    }

    fn size(&self) -> (r: usize) {
        proof {
            lemma_be_len(self.entries@.len(), 2);
        }
        2 + size_all(self.entries.as_slice())
    }

    fn serialize(&self, buf: &mut Bytes) {
        buf.push_be(self.entries.len() as u64, 2);
        serialize_all(self.entries.as_slice(), buf);
        assert(buf@ =~= old(buf)@ + self.spec_encode());
    }

    proof fn lemma_encode_by_model(a: &Dict<K, V>, b: &Dict<K, V>) {
        lemma_encode_all_by_models(a.entries@, b.entries@);
        assert(a.entries@.len() == a.deep_view().len());
        assert(b.entries@.len() == b.deep_view().len());
    }
}

impl<K: Deserialize, V: Deserialize> Deserialize for Dict<K, V> {
    /// A count, then that many entries; a later entry for a key takes the
    /// place of an earlier one.
    open spec fn spec_decode(s: Seq<u8>) -> Result<
        (Seq<(<K as DeepView>::V, <V as DeepView>::V)>, nat),
        SerializeError,
    > {
        match decode_uint(s, 2) {
            Err(e) => Err(e),
            Ok((count, w)) => match decode_n::<(K, V)>(s.skip(2), count) {
                Err(e) => Err(e),
                Ok((ps, n)) => Ok((insert_all(Seq::empty(), ps), 2 + n)),
            },
        }
    }

    fn deserialize_from(buf: &Bytes, pos: usize) -> (r: Result<
        (Dict<K, V>, usize),
        SerializeError,
    >)
        ensures
            r matches Ok((d, _)) ==> d.wf(),
    {
        proof {
            lemma_pow256_values();
        }
        let (count, at) = match read_uint(buf, pos, 2) {
            Ok(x) => x,
            Err(e) => return Err(e),
        };
        let ghost s = tail(buf@, at as int);
        assert(tail(buf@, pos as int).skip(2) =~= s);
        let mut d: Dict<K, V> = Dict::new();
        let ghost mut ps: Seq<(<K as DeepView>::V, <V as DeepView>::V)> = Seq::empty();
        let mut p = at;
        let mut i: u64 = 0;
        while i < count
            invariant
                pos <= buf@.len(),
                at == pos + 2,
                decode_uint(tail(buf@, pos as int), 2) == Ok::<(nat, nat), SerializeError>(
                    (count as nat, 2),
                ),
                tail(buf@, pos as int).skip(2) == s,
                at <= p <= buf@.len(),
                i <= count,
                s == tail(buf@, at as int),
                decode_n::<(K, V)>(s, i as nat) == decoded(ps, (p - at) as nat),
                d.wf(),
                d.deep_view() == insert_all(Seq::empty(), ps),
            decreases count - i,
        {
            assert(tail(s, (p - at) as int) =~= tail(buf@, p as int));
            match <(K, V)>::deserialize_from(buf, p) {
                Ok((pair, end)) => {
                    proof {
                        <(K, V)>::lemma_decoded_encodable(tail(buf@, p as int), &pair);
                    }
                    let ghost m = pair.deep_view();
                    let (k, v) = pair;
                    d.insert(k, v);
                    proof {
                        assert(ps.push(m).drop_last() =~= ps);
                        ps = ps.push(m);
                    }
                    p = end;
                    i = i + 1;
                },
                Err(e) => {
                    proof {
                        lemma_decode_n_err::<(K, V)>(s, (i + 1) as nat, count as nat);
                    }
                    return Err(e);
                },
            }
        }
        Ok((d, p))
    }

    proof fn lemma_decode_encode(v: &Dict<K, V>, rest: Seq<u8>) {
        lemma_pow256_values();
        let es = v.entries@;
        let s = v.spec_encode() + rest;
        assert(s =~= be(es.len(), 2) + (encode_all(es) + rest));
        lemma_decode_uint(es.len(), 2, encode_all(es) + rest);
        assert(s.skip(2) =~= encode_all(es) + rest);
        lemma_decode_n_encode_all::<(K, V)>(es, rest);
        lemma_insert_all_unique(models(es));
    }

    proof fn lemma_decode_truncated(v: &Dict<K, V>, n: nat) {
        lemma_pow256_values();
        let es = v.entries@;
        lemma_be_len(es.len(), 2);
        let t = v.spec_encode().take(n as int);
        if n < 2 {
            lemma_decode_uint_short(t, 2);
        } else {
            let k = (n - 2) as nat;
            assert(t =~= be(es.len(), 2) + encode_all(es).take(k as int));
            lemma_decode_uint(es.len(), 2, encode_all(es).take(k as int));
            assert(t.skip(2) =~= encode_all(es).take(k as int));
            lemma_decode_n_truncated::<(K, V)>(es, k);
        }
    }

    proof fn lemma_decoded_encodable(s: Seq<u8>, v: &Dict<K, V>) {
        lemma_pow256_values();
        lemma_from_be_bound(s.take(2));
        let count = from_be(s.take(2));
        let ps = decode_n::<(K, V)>(s.skip(2), count)->Ok_0.0;
        lemma_insert_all(ps);
        lemma_decode_n_len::<(K, V)>(s.skip(2), count);
        let es = v.entries@;
        assert forall|i: int| 0 <= i < es.len() implies #[trigger] es[i].spec_encodable() by {
            assert(v.deep_view()[i] == es[i].deep_view());
            assert(v.deep_view().contains(es[i].deep_view()));
            lemma_decode_n_member_encodable::<(K, V)>(s.skip(2), count, &es[i]);
        }
    }
}

/// A map read back from bytes is well formed, so it can be queried and
/// extended, and can be written again.
pub proof fn lemma_decoded_wf<K: Deserialize, V: Deserialize>(s: Seq<u8>, d: &Dict<K, V>)
    requires
        Dict::<K, V>::spec_decode(s) matches Ok((m, _)) && m == d.deep_view(),
    ensures
        d.wf(),
        d.spec_encodable(),
{
    Dict::<K, V>::lemma_decoded_encodable(s, d);
    assert forall|i: int| 0 <= i < d.entries().len() implies #[trigger] d.entries()[
        i
    ].0.spec_encodable() by {
        assert(d.entries()[i].spec_encodable());
    }
}

} // verus!
