//! Unsigned and two's-complement integers as big-endian byte sequences.
use vstd::prelude::*;

verus! {

/// `256` raised to `w`: one more than the largest value that `w` bytes hold.
pub open spec fn pow256(w: nat) -> nat
    decreases w,
{
    if w == 0 {
        1
    } else {
        256 * pow256((w - 1) as nat)
    }
}

/// The `w` bytes that hold `n` (modulo `pow256(w)`), most significant first.
pub open spec fn be(n: nat, w: nat) -> Seq<u8>
    decreases w,
{
    if w == 0 {
        Seq::empty()
    } else {
        be(n / 256, (w - 1) as nat).push((n % 256) as u8)
    }
}

/// The number that the bytes `s` hold, most significant first.
pub open spec fn from_be(s: Seq<u8>) -> nat
    decreases s.len(),
{
    if s.len() == 0 {
        0
    } else {
        from_be(s.drop_last()) * 256 + s.last() as nat
    }
}

/// The unsigned number whose `w` low bytes hold `x` in two's complement.
pub open spec fn twos(x: int, w: nat) -> nat {
    if x < 0 {
        (x + pow256(w)) as nat
    } else {
        x as nat
    }
}

/// The signed number that `n`, read as `w` bytes of two's complement, stands for.
pub open spec fn untwos(n: nat, w: nat) -> int {
    if 2 * n >= pow256(w) {
        n - pow256(w)
    } else {
        n as int
    }
}

pub proof fn lemma_pow256_pos(w: nat)
    ensures
        pow256(w) >= 1,
    decreases w,
{
    if w > 0 {
        lemma_pow256_pos((w - 1) as nat);
    }
}

pub proof fn lemma_pow256_values()
    ensures
        pow256(1) == 0x100,
        pow256(2) == 0x1_0000,
        pow256(4) == 0x1_0000_0000,
        pow256(8) == 0x1_0000_0000_0000_0000,
{
    reveal_with_fuel(pow256, 9);
}

pub proof fn lemma_be_len(n: nat, w: nat)
    ensures
        be(n, w).len() == w,
    decreases w,
{
    if w > 0 {
        lemma_be_len(n / 256, (w - 1) as nat);
    }
}

pub proof fn lemma_from_be_bound(s: Seq<u8>)
    ensures
        from_be(s) < pow256(s.len()),
    decreases s.len(),
{
    if s.len() > 0 {
        lemma_from_be_bound(s.drop_last());
        let a = from_be(s.drop_last());
        let p = pow256((s.len() - 1) as nat);
        assert(a * 256 + (s.last() as nat) < p * 256) by (nonlinear_arith)
            requires
                a < p,
                s.last() < 256,
        ;
    }
}

/// Reading back the bytes of a number that fits gives the number.
pub proof fn lemma_from_be_be(n: nat, w: nat)
    requires
        n < pow256(w),
    ensures
        from_be(be(n, w)) == n,
    decreases w,
{
    if w > 0 {
        let p = pow256((w - 1) as nat);
        assert(n / 256 < p) by (nonlinear_arith)
            requires
                n < 256 * p,
        ;
        lemma_from_be_be(n / 256, (w - 1) as nat);
        let s = be(n, w);
        assert(s.drop_last() == be(n / 256, (w - 1) as nat));
        assert(n == (n / 256) * 256 + n % 256) by (nonlinear_arith);
    }
}

/// Two's complement round trip for a number that fits in `w` bytes.
pub proof fn lemma_untwos_twos(x: int, w: nat)
    requires
        w >= 1,
        -pow256(w) <= 2 * x < pow256(w),
    ensures
        twos(x, w) < pow256(w),
        untwos(twos(x, w), w) == x,
{
}

pub proof fn lemma_untwos_range(n: nat, w: nat)
    requires
        w >= 1,
        n < pow256(w),
    ensures
        -pow256(w) <= 2 * untwos(n, w) < pow256(w),
        twos(untwos(n, w), w) == n,
{
}

} // verus!

verus! {

pub proof fn lemma_pow256_mono(a: nat, b: nat)
    requires
        a <= b,
    ensures
        pow256(a) <= pow256(b),
    decreases b,
{
    if a < b {
        lemma_pow256_mono(a, (b - 1) as nat);
        lemma_pow256_pos((b - 1) as nat);
    }
}

} // verus!
