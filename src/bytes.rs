//! An owned, growable byte buffer with random access by index and sequential
//! reading through a cursor.
use crate::bigend::{
    be, from_be, lemma_from_be_bound, lemma_pow256_mono, lemma_pow256_values, pow256,
};
use vstd::prelude::*;

verus! {

/// An owned sequence of bytes, with a read cursor used by sequential reads.
#[derive(Debug)]
pub struct Bytes {
    data: Vec<u8>,
    current: usize,
}

impl View for Bytes {
    type V = Seq<u8>;

    closed spec fn view(&self) -> Seq<u8> {
        self.data@
    }
}

impl Bytes {
    /// Where the next sequential read starts.
    pub closed spec fn cursor(&self) -> nat {
        self.current as nat
    }

    /// An empty buffer with its cursor at the start.
    pub fn new() -> (r: Self)
        ensures
            r@ == Seq::<u8>::empty(),
            r.cursor() == 0,
    {
        Self { data: Vec::new(), current: 0 }
    }

    /// A buffer that holds `data`, with its cursor at the start.
    pub fn from_vec(data: Vec<u8>) -> (r: Self)
        ensures
            r@ == data@,
            r.cursor() == 0,
    {
        Self { data, current: 0 }
    }

    /// The bytes held.
    pub fn into_vec(self) -> (r: Vec<u8>)
        ensures
            r@ == self@,
    {
        self.data
    }

    pub fn len(&self) -> (r: usize)
        ensures
            r == self@.len(),
    {
        self.data.len()
    }

    /// Moves the cursor back to the start.
    pub fn reset(&mut self)
        ensures
            final(self)@ == old(self)@,
            final(self).cursor() == 0,
    {
        self.current = 0;
    }

    /// Moves the cursor to `pos`.
    pub fn seek(&mut self, pos: usize)
        ensures
            final(self)@ == old(self)@,
            final(self).cursor() == pos,
    {
        self.current = pos;
    }

    /// Where the next sequential read starts.
    pub fn position(&self) -> (r: usize)
        ensures
            r == self.cursor(),
    {
        self.current
    }

    /// Whether both buffers hold the same bytes, whatever their cursors.
    pub fn same_bytes(&self, other: &Bytes) -> (r: bool)
        ensures
            r == (self@ == other@),
    {
        let n = self.data.len();
        if n != other.data.len() {
            return false;
        }
        let mut i: usize = 0;
        while i < n
            invariant
                n == self@.len() == other@.len(),
                i <= n,
                self@.subrange(0, i as int) == other@.subrange(0, i as int),
            decreases n - i,
        {
            if self.data[i] != other.data[i] {
                assert(self@[i as int] != other@[i as int]);
                return false;
            }
            i = i + 1;
            assert(self@.subrange(0, i as int) =~= other@.subrange(0, i as int)) by {
                assert forall|j: int| 0 <= j < i implies self@[j] == other@[j] by {
                    if j < i - 1 {
                        assert(self@.subrange(0, i - 1)[j] == other@.subrange(0, i - 1)[j]);
                    }
                }
            }
        }
        assert(self@ =~= self@.subrange(0, n as int));
        assert(other@ =~= other@.subrange(0, n as int));
        true
    }

    /// Appends one byte.
    pub fn push(&mut self, byte: u8)
        ensures
            final(self)@ == old(self)@.push(byte),
            final(self).cursor() == old(self).cursor(),
    {
        self.data.push(byte)
    }

    /// Whether `index` is the position of a byte held.
    pub fn is_in_bounds(&self, index: usize) -> (r: bool)
        ensures
            r == (index < self@.len()),
    {
        index < self.data.len()
    }

    /// The byte at `index`.
    pub fn get(&self, index: usize) -> (r: u8)
        requires
            index < self@.len(),
        ensures
            r == self@[index as int],
    {
        self.data[index]
    }

    /// Replaces the byte at `index`.
    pub fn set(&mut self, index: usize, byte: u8)
        requires
            index < old(self)@.len(),
        ensures
            final(self)@ == old(self)@.update(index as int, byte),
            final(self).cursor() == old(self).cursor(),
    {
        self.data.set(index, byte);
    }

    /// Overwrites the bytes from `at` on with those of `other`; the length
    /// stays as it was.
    pub fn insert(&mut self, at: usize, other: &Bytes)
        requires
            at + other@.len() <= old(self)@.len(),
        ensures
            final(self)@ == old(self)@.subrange(0, at as int) + other@ + old(self)@.subrange(
                at + other@.len(),
                old(self)@.len() as int,
            ),
            final(self).cursor() == old(self).cursor(),
    {
        let n = other.data.len();
        let total = self.data.len();
        let mut i: usize = 0;
        while i < n
            invariant
                n == other@.len(),
                total == old(self)@.len(),
                at + n <= total,
                self.current == old(self).current,
                self.data@.len() == old(self)@.len(),
                i <= n,
                forall|j: int|
                    0 <= j < self.data@.len() ==> #[trigger] self.data@[j] == if at <= j < at
                        + i {
                        other@[j - at]
                    } else {
                        old(self)@[j]
                    },
            decreases n - i,
        {
            self.data.set(at + i, other.data[i]);
            i = i + 1;
        }
        assert(self.data@ =~= old(self)@.subrange(0, at as int) + other@ + old(self)@.subrange(
            at + other@.len(),
            old(self)@.len() as int,
        ));
    }

    /// Appends all the bytes of `other`.
    pub fn append(&mut self, other: &Bytes)
        ensures
            final(self)@ == old(self)@ + other@,
            final(self).cursor() == old(self).cursor(),
    {
        let n = other.data.len();
        let mut i: usize = 0;
        while i < n
            invariant
                n == other@.len(),
                self.current == old(self).current,
                i <= n,
                self.data@ == old(self)@ + other@.subrange(0, i as int),
            decreases n - i,
        {
            self.data.push(other.data[i]);
            i = i + 1;
            assert(self.data@ =~= old(self)@ + other@.subrange(0, i as int));
        }
        assert(other@.subrange(0, n as int) =~= other@);
    }

    /// Sets the length to `n`: drops the bytes past it, or pads with zeros.
    pub fn set_len(&mut self, n: usize)
        ensures
            final(self)@.len() == n,
            n <= old(self)@.len() ==> final(self)@ == old(self)@.subrange(0, n as int),
            n > old(self)@.len() ==> final(self)@ == old(self)@ + Seq::new(
                (n - old(self)@.len()) as nat,
                |i: int| 0u8,
            ),
            final(self).cursor() == old(self).cursor(),
    {
        if n <= self.data.len() {
            self.data.truncate(n);
            assert(self.data@ =~= old(self)@.subrange(0, n as int));
        } else {
            let ghost start = self.data@;
            while self.data.len() < n
                invariant
                    self.current == old(self).current,
                    start == old(self)@,
                    start.len() <= self.data@.len() <= n,
                    self.data@ =~= start + Seq::new(
                        (self.data@.len() - start.len()) as nat,
                        |i: int| 0u8,
                    ),
                decreases n - self.data@.len(),
            {
                self.data.push(0);
            }
        }
    }

    /// A copy of the bytes from `from` up to `to`.
    pub fn to_vec_range(&self, from: usize, to: usize) -> (r: Vec<u8>)
        requires
            from <= to <= self@.len(),
        ensures
            r@ == self@.subrange(from as int, to as int),
    {
        let mut out: Vec<u8> = Vec::new();
        let mut i = from;
        while i < to
            invariant
                from <= i <= to <= self@.len(),
                out@ == self@.subrange(from as int, i as int),
            decreases to - i,
        {
            out.push(self.data[i]);
            i = i + 1;
            assert(out@ =~= self@.subrange(from as int, i as int));
        }
        out
    }

    /// Appends the `w` low bytes of `x`, most significant first.
    pub(crate) fn push_be(&mut self, x: u64, w: usize)
        requires
            w <= 8,
        ensures
            final(self)@ == old(self)@ + be(x as nat, w as nat),
            final(self).cursor() == old(self).cursor(),
        decreases w,
    {
        if w > 0 {
            self.push_be(x / 256, w - 1);
            self.push((x % 256) as u8);
            assert(be(x as nat, w as nat) == be((x / 256) as nat, (w - 1) as nat).push(
                (x % 256) as u8,
            ));
        }
    }

    /// The number held by the `w` bytes from `pos` on, most significant first.
    pub(crate) fn read_be(&self, pos: usize, w: usize) -> (r: u64)
        requires
            w <= 8,
            pos + w <= self@.len(),
        ensures
            r == from_be(self@.subrange(pos as int, pos + w)),
    {
        let total = self.data.len();
        let mut acc: u64 = 0;
        let mut i: usize = 0;
        while i < w
            invariant
                w <= 8,
                total == self@.len(),
                pos + w <= total,
                i <= w,
                acc == from_be(self@.subrange(pos as int, pos + i)),
            decreases w - i,
        {
            proof {
                let s = self@.subrange(pos as int, pos + i);
                lemma_from_be_bound(s);
                lemma_pow256_mono(i as nat, 7);
                lemma_pow256_values();
                reveal_with_fuel(pow256, 8);
                assert(self@.subrange(pos as int, pos + i + 1).drop_last() == s);
            }
            acc = acc * 256 + self.data[pos + i] as u64;
            i = i + 1;
        }
        acc
    }
}

impl Clone for Bytes {
    fn clone(&self) -> (r: Self)
        ensures
            r@ == self@,
            r.cursor() == self.cursor(),
    {
        Bytes { data: self.to_vec_range(0, self.data.len()), current: self.current }
    }
}

impl PartialEq for Bytes {
    fn eq(&self, other: &Bytes) -> (r: bool) {
        self.same_bytes(other) && self.current == other.current
    }
}

impl vstd::std_specs::cmp::PartialEqSpecImpl for Bytes {
    open spec fn obeys_eq_spec() -> bool {
        true
    }

    /// The same bytes, with the cursor at the same place.
    open spec fn eq_spec(&self, other: &Bytes) -> bool {
        self@ == other@ && self.cursor() == other.cursor()
    }
}

impl Eq for Bytes {
}

impl From<Vec<u8>> for Bytes {
    fn from(data: Vec<u8>) -> (r: Bytes) {
        Bytes { data, current: 0 }
    }
}

impl vstd::std_specs::convert::FromSpecImpl<Vec<u8>> for Bytes {
    open spec fn obeys_from_spec() -> bool {
        true
    }

    /// A buffer that holds the bytes, with its cursor at the start.
    closed spec fn from_spec(data: Vec<u8>) -> Bytes {
        Bytes { data, current: 0 }
    }
}

impl<'a> From<&'a [u8]> for Bytes {
    /// A buffer that holds a copy of the bytes, with its cursor at the start.
    fn from(data: &'a [u8]) -> (r: Bytes)
        ensures
            r@ == data@,
            r.cursor() == 0,
    {
        Bytes { data: vstd::slice::slice_to_vec(data), current: 0 }
    }
}

impl<'a> vstd::std_specs::convert::FromSpecImpl<&'a [u8]> for Bytes {
    /// What the conversion gives is stated by the `ensures` of `from`: spec
    /// code cannot build the `Vec` that a buffer holds.
    open spec fn obeys_from_spec() -> bool {
        false
    }

    closed spec fn from_spec(data: &'a [u8]) -> Bytes {
        choose|b: Bytes| b@ == data@ && b.cursor() == 0
    }
}

} // verus!
