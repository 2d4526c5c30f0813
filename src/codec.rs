//! The wire format: fixed-width integers, length-prefixed sequences of them,
//! and length-prefixed text.

use vstd::prelude::*;
use crate::bytes::{tail, le_bytes, le_value, pow256, push_le, read_le, lemma_le_round_trip, lemma_le_value_bound};
use crate::error::Error;

verus! {

/// A fixed-width integer kind: its bytes are its bit pattern, least
/// significant byte first.
pub trait Primitive: Sized + Copy {
    /// The number of bytes a value of this kind takes.
    spec fn width() -> nat;

    /// The value's bit pattern read as an unsigned number.
    spec fn bits(&self) -> nat;

    /// The value whose bit pattern is the unsigned number `b`.
    spec fn of_bits(b: nat) -> Self;

    fn byte_width() -> (w: usize)
        ensures
            w == Self::width(),
    ;

    fn to_bits(&self) -> (r: u64)
        ensures
            r == self.bits(),
    ;

    fn from_bits(b: u64) -> (r: Self)
        requires
            b < pow256(Self::width()),
        ensures
            r == Self::of_bits(b as nat),
    ;

    proof fn lemma_width()
        ensures
            1 <= Self::width() <= 8,
    ;

    proof fn lemma_bits(&self)
        ensures
            self.bits() < pow256(Self::width()),
            Self::of_bits(self.bits()) == *self,
    ;
}

impl Primitive for u8 {
    open spec fn width() -> nat {
        1
    }

    open spec fn bits(&self) -> nat {
        *self as nat
    }

    open spec fn of_bits(b: nat) -> u8 {
        b as u8
    }

    fn byte_width() -> usize {
        1
    }

    fn to_bits(&self) -> u64 {
        *self as u64
    }

    fn from_bits(b: u64) -> u8 {
        proof {
            reveal_with_fuel(pow256, 2);
        }
        b as u8
    }

    proof fn lemma_width() {
    }

    proof fn lemma_bits(&self) {
        reveal_with_fuel(pow256, 2);
    }
}

impl Primitive for u16 {
    open spec fn width() -> nat {
        2
    }

    open spec fn bits(&self) -> nat {
        *self as nat
    }

    open spec fn of_bits(b: nat) -> u16 {
        b as u16
    }

    fn byte_width() -> usize {
        2
    }

    fn to_bits(&self) -> u64 {
        *self as u64
    }

    fn from_bits(b: u64) -> u16 {
        proof {
            reveal_with_fuel(pow256, 3);
        }
        b as u16
    }

    proof fn lemma_width() {
    }

    proof fn lemma_bits(&self) {
        reveal_with_fuel(pow256, 3);
    }
}

impl Primitive for u32 {
    open spec fn width() -> nat {
        4
    }

    open spec fn bits(&self) -> nat {
        *self as nat
    }

    open spec fn of_bits(b: nat) -> u32 {
        b as u32
    }

    fn byte_width() -> usize {
        4
    }

    fn to_bits(&self) -> u64 {
        *self as u64
    }

    fn from_bits(b: u64) -> u32 {
        proof {
            reveal_with_fuel(pow256, 5);
        }
        b as u32
    }

    proof fn lemma_width() {
    }

    proof fn lemma_bits(&self) {
        reveal_with_fuel(pow256, 5);
    }
}

impl Primitive for u64 {
    open spec fn width() -> nat {
        8
    }

    open spec fn bits(&self) -> nat {
        *self as nat
    }

    open spec fn of_bits(b: nat) -> u64 {
        b as u64
    }

    fn byte_width() -> usize {
        8
    }

    fn to_bits(&self) -> u64 {
        *self as u64
    }

    fn from_bits(b: u64) -> u64 {
        proof {
            reveal_with_fuel(pow256, 9);
        }
        b as u64
    }

    proof fn lemma_width() {
    }

    proof fn lemma_bits(&self) {
        reveal_with_fuel(pow256, 9);
    }
}

/// A `usize` takes eight bytes, its width on the 64-bit hosts this format is
/// written on.
impl Primitive for usize {
    open spec fn width() -> nat {
        8
    }

    open spec fn bits(&self) -> nat {
        *self as nat
    }

    open spec fn of_bits(b: nat) -> usize {
        b as usize
    }

    fn byte_width() -> usize {
        8
    }

    fn to_bits(&self) -> u64 {
        *self as u64
    }

    fn from_bits(b: u64) -> usize {
        proof {
            reveal_with_fuel(pow256, 9);
        }
        b as usize
    }

    proof fn lemma_width() {
    }

    proof fn lemma_bits(&self) {
        reveal_with_fuel(pow256, 9);
    }
}

impl Primitive for i8 {
    open spec fn width() -> nat {
        1
    }

    open spec fn bits(&self) -> nat {
        if *self >= 0 {
            *self as nat
        } else {
            (*self + 0x100) as nat
        }
    }

    open spec fn of_bits(b: nat) -> i8 {
        if b < 0x80 {
            b as i8
        } else {
            (b - 0x100) as i8
        }
    }

    fn byte_width() -> usize {
        1
    }

    fn to_bits(&self) -> u64 {
        if *self >= 0 {
            *self as u64
        } else {
            (*self as i128 + 0x100) as u64
        }
    }

    fn from_bits(b: u64) -> i8 {
        proof {
            reveal_with_fuel(pow256, 2);
        }
        if b < 0x80 {
            b as i8
        } else {
            (b as i128 - 0x100) as i8
        }
    }

    proof fn lemma_width() {
    }

    proof fn lemma_bits(&self) {
        reveal_with_fuel(pow256, 2);
    }
}

impl Primitive for i16 {
    open spec fn width() -> nat {
        2
    }

    open spec fn bits(&self) -> nat {
        if *self >= 0 {
            *self as nat
        } else {
            (*self + 0x1_0000) as nat
        }
    }

    open spec fn of_bits(b: nat) -> i16 {
        if b < 0x8000 {
            b as i16
        } else {
            (b - 0x1_0000) as i16
        }
    }

    fn byte_width() -> usize {
        2
    }

    fn to_bits(&self) -> u64 {
        if *self >= 0 {
            *self as u64
        } else {
            (*self as i128 + 0x1_0000) as u64
        }
    }

    fn from_bits(b: u64) -> i16 {
        proof {
            reveal_with_fuel(pow256, 3);
        }
        if b < 0x8000 {
            b as i16
        } else {
            (b as i128 - 0x1_0000) as i16
        }
    }

    proof fn lemma_width() {
    }

    proof fn lemma_bits(&self) {
        reveal_with_fuel(pow256, 3);
    }
}

impl Primitive for i32 {
    open spec fn width() -> nat {
        4
    }

    open spec fn bits(&self) -> nat {
        if *self >= 0 {
            *self as nat
        } else {
            (*self + 0x1_0000_0000) as nat
        }
    }

    open spec fn of_bits(b: nat) -> i32 {
        if b < 0x8000_0000 {
            b as i32
        } else {
            (b - 0x1_0000_0000) as i32
        }
    }

    fn byte_width() -> usize {
        4
    }

    fn to_bits(&self) -> u64 {
        if *self >= 0 {
            *self as u64
        } else {
            (*self as i128 + 0x1_0000_0000) as u64
        }
    }

    fn from_bits(b: u64) -> i32 {
        proof {
            reveal_with_fuel(pow256, 5);
        }
        if b < 0x8000_0000 {
            b as i32
        } else {
            (b as i128 - 0x1_0000_0000) as i32
        }
    }

    proof fn lemma_width() {
    }

    proof fn lemma_bits(&self) {
        reveal_with_fuel(pow256, 5);
    }
}

impl Primitive for i64 {
    open spec fn width() -> nat {
        8
    }

    open spec fn bits(&self) -> nat {
        if *self >= 0 {
            *self as nat
        } else {
            (*self + 0x1_0000_0000_0000_0000) as nat
        }
    }

    open spec fn of_bits(b: nat) -> i64 {
        if b < 0x8000_0000_0000_0000 {
            b as i64
        } else {
            (b - 0x1_0000_0000_0000_0000) as i64
        }
    }

    fn byte_width() -> usize {
        8
    }

    fn to_bits(&self) -> u64 {
        if *self >= 0 {
            *self as u64
        } else {
            (*self as i128 + 0x1_0000_0000_0000_0000) as u64
        }
    }

    fn from_bits(b: u64) -> i64 {
        proof {
            reveal_with_fuel(pow256, 9);
        }
        if b < 0x8000_0000_0000_0000 {
            b as i64
        } else {
            (b as i128 - 0x1_0000_0000_0000_0000) as i64
        }
    }

    proof fn lemma_width() {
    }

    proof fn lemma_bits(&self) {
        reveal_with_fuel(pow256, 9);
    }
}

/// The bytes of one fixed-width value.
pub open spec fn prim_encoding<T: Primitive>(v: T) -> Seq<u8> {
    le_bytes(v.bits(), T::width())
}

/// One fixed-width value read from the front of `b`, with the number of
/// bytes it took; `None` when `b` is too short.
pub open spec fn parse_prim<T: Primitive>(b: Seq<u8>) -> Option<(T, nat)> {
    if b.len() < T::width() {
        None
    } else {
        Some((T::of_bits(le_value(b.subrange(0, T::width() as int))), T::width()))
    }
}

/// The elements' bytes back to back, with no count in front.
pub open spec fn elems_encoding<T: Primitive>(s: Seq<T>) -> Seq<u8>
    decreases s.len(),
{
    if s.len() == 0 {
        Seq::empty()
    } else {
        elems_encoding(s.drop_last()) + prim_encoding(s.last())
    }
}

/// The bytes of a sequence: its element count in eight bytes, then each
/// element's bytes.
pub open spec fn seq_encoding<T: Primitive>(s: Seq<T>) -> Seq<u8> {
    le_bytes(s.len(), 8) + elems_encoding(s)
}

/// The `i`-th element of a sequence whose elements start at `start` in `b`.
pub open spec fn elem_at<T: Primitive>(b: Seq<u8>, start: int, i: int) -> T {
    let w = T::width() as int;
    T::of_bits(le_value(b.subrange(start + i * w, start + i * w + w)))
}

/// A sequence read from the front of `b`, with the number of bytes it took;
/// `None` when `b` holds fewer bytes than the count, or its prefix, calls for.
pub open spec fn parse_seq<T: Primitive>(b: Seq<u8>) -> Option<(Seq<T>, nat)> {
    if b.len() < 8 {
        None
    } else {
        let n = le_value(b.subrange(0, 8));
        if b.len() < 8 + n * T::width() {
            None
        } else {
            Some((Seq::new(n, |i: int| elem_at::<T>(b, 8, i)), 8 + n * T::width()))
        }
    }
}

/// Appends the bytes of one fixed-width value.
pub fn write_prim<T: Primitive>(v: T, to: &mut Vec<u8>)
    ensures
        final(to)@ == old(to)@ + prim_encoding(v),
{
    push_le(to, v.to_bits(), T::byte_width());
}

/// Reads one fixed-width value at `at`; gives the value and the position
/// after it.
pub fn read_prim<T: Primitive>(from: &[u8], at: usize) -> (r: Result<(T, usize), Error>)
    ensures
        match parse_prim::<T>(tail(from@, at as nat)) {
            Some((v, n)) => r matches Ok((x, end)) && x == v && end == at + n,
            None => r matches Err(Error::UnexpectedEof),
        },
{
    let w = T::byte_width();
    proof {
        T::lemma_width();
    }
    if at > from.len() {
        return Err(Error::UnexpectedEof);
    }
    assert(tail(from@, at as nat) =~= from@.subrange(at as int, from@.len() as int));
    if from.len() - at < w {
        return Err(Error::UnexpectedEof);
    }
    let b = read_le(from, at, w);
    proof {
        lemma_le_value_bound(from@.subrange(at as int, at + w));
        assert(from@.subrange(at as int, from@.len() as int).subrange(0, w as int) =~= from@.subrange(
            at as int,
            at + w,
        ));
    }
    Ok((T::from_bits(b), at + w))
}

/// Appends the bytes of a sequence: its count, then its elements.
pub fn write_seq<T: Primitive>(s: &[T], to: &mut Vec<u8>)
    ensures
        final(to)@ == old(to)@ + seq_encoding(s@),
{
    let n: usize = s.len();
    push_le(to, n as u64, 8);
    let ghost head = to@;
    let mut i: usize = 0;
    while i < n
        invariant
            i <= n == s@.len(),
            to@ == head + elems_encoding(s@.subrange(0, i as int)),
            head == old(to)@ + le_bytes(n as nat, 8),
        decreases n - i,
    {
        let ghost before = to@;
        write_prim(s[i], to);
        assert(s@.subrange(0, i + 1).drop_last() =~= s@.subrange(0, i as int));
        i = i + 1;
        assert(to@ =~= head + elems_encoding(s@.subrange(0, i as int)));
    }
    assert(s@.subrange(0, n as int) =~= s@);
}

/// Reads a sequence at `at`: its count, then exactly that many elements.
/// Fails, with nothing decoded, when fewer bytes follow than the count
/// calls for.
pub fn read_seq<T: Primitive>(from: &[u8], at: usize) -> (r: Result<(Vec<T>, usize), Error>)
    ensures
        match parse_seq::<T>(tail(from@, at as nat)) {
            Some((v, n)) => r matches Ok((x, end)) && x@ == v && end == at + n,
            None => r matches Err(Error::UnexpectedEof),
        },
{
    let len: usize = from.len();
    if at > len {
        return Err(Error::UnexpectedEof);
    }
    let ghost b = from@.subrange(at as int, from@.len() as int);
    assert(tail(from@, at as nat) =~= b);
    if len - at < 8 {
        return Err(Error::UnexpectedEof);
    }
    let count = read_le(from, at, 8);
    assert(b.subrange(0, 8) =~= from@.subrange(at as int, at + 8));
    let w = T::byte_width();
    proof {
        T::lemma_width();
    }
    let avail: usize = len - at - 8;
    if count > (avail / w) as u64 {
        assert(count * w > avail) by (nonlinear_arith)
            requires
                count > avail / w,
                w >= 1,
        ;
        return Err(Error::UnexpectedEof);
    }
    assert(count * w <= avail) by (nonlinear_arith)
        requires
            count <= avail / w,
            w >= 1,
    ;
    let n: usize = count as usize;
    let start: usize = at + 8;
    let mut out: Vec<T> = Vec::with_capacity(n);
    let mut i: usize = 0;
    while i < n
        invariant
            i <= n,
            n * w <= avail,
            avail == len - at - 8,
            start == at + 8,
            len == from@.len(),
            b == from@.subrange(at as int, from@.len() as int),
            w == T::width(),
            1 <= w <= 8,
            out@ =~= Seq::new(i as nat, |k: int| elem_at::<T>(b, 8, k)),
        decreases n - i,
    {
        assert(i * w + w <= n * w) by (nonlinear_arith)
            requires
                i < n,
        ;
        let pos: usize = start + i * w;
        let (x, _) = match read_prim::<T>(from, pos) {
            Ok(p) => p,
            Err(e) => return Err(e),
        };
        proof {
            let k = i as int;
            assert(from@.subrange(pos as int, from@.len() as int).subrange(0, w as int) =~= b.subrange(
                8 + k * w,
                8 + k * w + w,
            ));
        }
        out.push(x);
        i = i + 1;
    }
    Ok((out, start + n * w))
}

/// A fixed-width value is read back from the front of its own bytes,
/// whatever follows them.
pub proof fn lemma_prim_round_trip<T: Primitive>(v: T, rest: Seq<u8>)
    ensures
        prim_encoding(v).len() == T::width(),
        parse_prim::<T>(prim_encoding(v) + rest) == Some((v, T::width())),
{
    v.lemma_bits();
    lemma_le_round_trip(v.bits(), T::width());
    assert((prim_encoding(v) + rest).subrange(0, T::width() as int) =~= prim_encoding(v));
}

/// The elements' bytes take `width` bytes each, and element `i` stands in
/// the `i`-th slot.
pub proof fn lemma_elems_layout<T: Primitive>(s: Seq<T>)
    ensures
        elems_encoding(s).len() == s.len() * T::width(),
        forall|i: int|
            0 <= i < s.len() ==> #[trigger] elems_encoding(s).subrange(
                i * T::width(),
                i * T::width() + T::width(),
            ) == prim_encoding(s[i]),
    decreases s.len(),
{
    let w = T::width() as int;
    if s.len() > 0 {
        let init = s.drop_last();
        lemma_elems_layout(init);
        lemma_prim_round_trip(s.last(), Seq::empty());
        let e = elems_encoding(s);
        assert(e == elems_encoding(init) + prim_encoding(s.last()));
        assert(init.len() * w + w == s.len() * w) by (nonlinear_arith)
            requires
                init.len() + 1 == s.len(),
        ;
        assert forall|i: int| 0 <= i < s.len() implies #[trigger] e.subrange(i * w, i * w + w)
            == prim_encoding(s[i]) by {
            if i < init.len() {
                assert(i * w + w <= init.len() * w) by (nonlinear_arith)
                    requires
                        i < init.len(),
                        w >= 0,
                ;
                assert(e.subrange(i * w, i * w + w) =~= elems_encoding(init).subrange(i * w, i * w + w));
            } else {
                assert(e.subrange(i * w, i * w + w) =~= prim_encoding(s.last()));
            }
        }
    } else {
        assert(s.len() * w == 0) by (nonlinear_arith)
            requires
                s.len() == 0,
        ;
    }
}

/// A sequence whose count calls for more bytes than follow it is not read
/// at all: no prefix of its elements is handed out.
pub proof fn lemma_short_sequence_fails<T: Primitive>(b: Seq<u8>)
    requires
        b.len() >= 8,
        b.len() < 8 + le_value(b.subrange(0, 8)) * T::width(),
    ensures
        parse_seq::<T>(b) is None,
{
}

/// A sequence is read back from the front of its own bytes, whatever
/// follows them.
pub proof fn lemma_seq_round_trip<T: Primitive>(s: Seq<T>, rest: Seq<u8>)
    requires
        s.len() < pow256(8),
    ensures
        seq_encoding(s).len() == 8 + s.len() * T::width(),
        parse_seq::<T>(seq_encoding(s) + rest) == Some((s, seq_encoding(s).len())),
{
    let w = T::width() as int;
    T::lemma_width();
    lemma_le_round_trip(s.len(), 8);
    lemma_elems_layout(s);
    let b = seq_encoding(s) + rest;
    assert(b.subrange(0, 8) =~= le_bytes(s.len(), 8));
    let parsed = Seq::new(s.len(), |i: int| elem_at::<T>(b, 8, i));
    assert forall|i: int| 0 <= i < s.len() implies parsed[i] == s[i] by {
        assert(i * w + w <= s.len() * w) by (nonlinear_arith)
            requires
                i < s.len(),
                w >= 0,
        ;
        assert(i * w >= 0) by (nonlinear_arith)
            requires
                i >= 0,
                w >= 0,
        ;
        assert(b.subrange(8 + i * w, 8 + i * w + w) =~= elems_encoding(s).subrange(i * w, i * w + w));
        s[i].lemma_bits();
        lemma_le_round_trip(s[i].bits(), T::width());
    }
    assert(parsed =~= s);
}

} // verus!
