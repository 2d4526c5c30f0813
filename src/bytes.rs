//! Fixed-width unsigned integers as little-endian byte strings.

use vstd::prelude::*;

verus! {

/// The bytes of `c` from `at` to its end; none when `at` is at or past the
/// end.
pub open spec fn tail(c: Seq<u8>, at: nat) -> Seq<u8> {
    if at < c.len() {
        c.subrange(at as int, c.len() as int)
    } else {
        Seq::empty()
    }
}

/// `256` raised to the power `n`.
pub open spec fn pow256(n: nat) -> nat
    decreases n,
{
    if n == 0 {
        1
    } else {
        256 * pow256((n - 1) as nat)
    }
}

/// The `w` low-order bytes of `v`, least significant first.
pub open spec fn le_bytes(v: nat, w: nat) -> Seq<u8>
    decreases w,
{
    if w == 0 {
        Seq::empty()
    } else {
        seq![(v % 256) as u8] + le_bytes(v / 256, (w - 1) as nat)
    }
}

/// The number that the bytes `b` spell, least significant first.
pub open spec fn le_value(b: Seq<u8>) -> nat
    decreases b.len(),
{
    if b.len() == 0 {
        0
    } else {
        b[0] as nat + 256 * le_value(b.drop_first())
    }
}

/// `w` bytes spell a number below `256^w`.
pub proof fn lemma_le_value_bound(b: Seq<u8>)
    ensures
        le_value(b) < pow256(b.len()),
    decreases b.len(),
{
    if b.len() > 0 {
        lemma_le_value_bound(b.drop_first());
        let r = le_value(b.drop_first());
        let p = pow256((b.len() - 1) as nat);
        assert(b[0] as nat + 256 * r < 256 * p) by (nonlinear_arith)
            requires
                r < p,
                b[0] < 256,
        ;
    }
}

pub proof fn lemma_le_bytes_len(v: nat, w: nat)
    ensures
        le_bytes(v, w).len() == w,
    decreases w,
{
    if w > 0 {
        lemma_le_bytes_len(v / 256, (w - 1) as nat);
    }
}

/// Reading back the `w` bytes of a number below `256^w` gives the number.
pub proof fn lemma_le_round_trip(v: nat, w: nat)
    requires
        v < pow256(w),
    ensures
        le_value(le_bytes(v, w)) == v,
        le_bytes(v, w).len() == w,
    decreases w,
{
    lemma_le_bytes_len(v, w);
    if w > 0 {
        let p = pow256((w - 1) as nat);
        assert(v / 256 < p) by (nonlinear_arith)
            requires
                v < 256 * p,
        ;
        lemma_le_round_trip(v / 256, (w - 1) as nat);
        let b = le_bytes(v, w);
        assert(b.drop_first() =~= le_bytes(v / 256, (w - 1) as nat));
    }
}

/// Appends the `w` low-order bytes of `v` to `out`, least significant first.
pub fn push_le(out: &mut Vec<u8>, v: u64, w: usize)
    ensures
        final(out)@ == old(out)@ + le_bytes(v as nat, w as nat),
{
    let mut x: u64 = v;
    let mut i: usize = 0;
    while i < w
        invariant
            i <= w,
            old(out)@ + le_bytes(v as nat, w as nat) == out@ + le_bytes(x as nat, (w - i) as nat),
        decreases w - i,
    {
        let ghost before = out@;
        let ghost y = x as nat;
        let ghost k = (w - i) as nat;
        assert(le_bytes(y, k) == seq![(y % 256) as u8] + le_bytes(y / 256, (k - 1) as nat));
        out.push((x % 256) as u8);
        x = x / 256;
        i = i + 1;
        assert(out@ + le_bytes(x as nat, (w - i) as nat) =~= before + (seq![(y % 256) as u8]
            + le_bytes(y / 256, (k - 1) as nat)));
    }
    assert(le_bytes(x as nat, 0) =~= Seq::<u8>::empty());
    assert(out@ + Seq::<u8>::empty() =~= out@);
}

/// The number spelled by the `w` bytes of `from` that start at `at`,
/// least significant first.
pub fn read_le(from: &[u8], at: usize, w: usize) -> (r: u64)
    requires
        w <= 8,
        at + w <= from@.len(),
    ensures
        r as nat == le_value(from@.subrange(at as int, at + w)),
{
    let n: usize = from.len();
    let mut acc: u64 = 0;
    let mut i: usize = w;
    while i > 0
        invariant
            i <= w <= 8,
            at + w <= from@.len() == n,
            acc as nat == le_value(from@.subrange(at + i, at + w)),
        decreases i,
    {
        i = i - 1;
        let ghost tail = from@.subrange(at + i + 1, at + w);
        let ghost cur = from@.subrange(at + i, at + w);
        assert(cur.drop_first() =~= tail);
        proof {
            lemma_le_value_bound(tail);
            lemma_pow256_le8((w - i - 1) as nat);
        }
        acc = acc * 256 + from[at + i] as u64;
    }
    acc
}

/// `256^n` fits in 56 bits for `n` up to seven.
proof fn lemma_pow256_le8(n: nat)
    requires
        n <= 7,
    ensures
        pow256(n) <= 0x100_0000_0000_0000,
{
    reveal_with_fuel(pow256, 8);
}

} // verus!
