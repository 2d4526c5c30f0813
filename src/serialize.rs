//! The `Serialize` capability and its implementations for integers,
//! integer sequences and text.

use vstd::prelude::*;
use vstd::utf8::{decode_utf8, encode_utf8, encode_utf8_decode_utf8, encode_utf8_valid_utf8, valid_utf8};
use crate::bytes::{pow256, tail};
use crate::codec::{
    Primitive, lemma_elems_layout, lemma_prim_round_trip, lemma_seq_round_trip, parse_prim,
    parse_seq, prim_encoding, read_prim, read_seq, seq_encoding, write_prim, write_seq,
};
use crate::error::Error;

verus! {

/// A value that can be written as bytes and read back.
pub trait Serialize: Sized {
    /// What reading the bytes back yields (for borrowed data, an owned copy).
    type DeserializeOutput: View;

    /// The bytes that `serialize` writes for this value.
    spec fn encoding(&self) -> Seq<u8>;

    /// The value, as reading its bytes back should give it.
    spec fn model(&self) -> <Self::DeserializeOutput as View>::V;

    /// A value read from the front of `b`, with the number of bytes it
    /// took; `None` when `b` is too short for it.
    spec fn parse(b: Seq<u8>) -> Option<(<Self::DeserializeOutput as View>::V, nat)>;

    /// Appends this value's bytes to `to`.
    fn serialize(&self, to: &mut Vec<u8>)
        ensures
            final(to)@ == old(to)@ + self.encoding(),
    ;

    /// Reads a value from the bytes of `from` that start at `at`; gives the
    /// value and the position just after its bytes.
    fn deserialize(from: &[u8], at: usize) -> (r: Result<(Self::DeserializeOutput, usize), Error>)
        ensures
            match Self::parse(tail(from@, at as nat)) {
                Some((v, n)) => r matches Ok((x, end)) && x@ == v && end == at + n,
                None => r matches Err(Error::UnexpectedEof),
            },
    ;

    /// The number of bytes `serialize` writes for this value, computed
    /// without writing them.
    fn serialized_len(&self) -> (n: u64)
        requires
            self.encoding().len() <= u64::MAX,
        ensures
            n == self.encoding().len(),
    ;

    /// Reading a value's bytes back gives the value and consumes exactly
    /// those bytes, whatever follows them.
    proof fn lemma_round_trip(&self, rest: Seq<u8>)
        requires
            self.encoding().len() <= u64::MAX,
        ensures
            Self::parse(self.encoding() + rest) == Some((self.model(), self.encoding().len())),
    ;
}

impl Serialize for u8 {
    type DeserializeOutput = u8;

    open spec fn encoding(&self) -> Seq<u8> {
        prim_encoding(*self)
    }

    open spec fn model(&self) -> u8 {
        *self
    }

    open spec fn parse(b: Seq<u8>) -> Option<(u8, nat)> {
        parse_prim::<u8>(b)
    }

    fn serialize(&self, to: &mut Vec<u8>) {
        write_prim(*self, to);
    }

    fn deserialize(from: &[u8], at: usize) -> (r: Result<(u8, usize), Error>) {
        read_prim::<u8>(from, at)
    }

    fn serialized_len(&self) -> (n: u64) {
        proof {
            lemma_prim_round_trip(*self, Seq::empty());
        }
        1
    }

    proof fn lemma_round_trip(&self, rest: Seq<u8>) {
        lemma_prim_round_trip(*self, rest);
    }
}

impl Serialize for u16 {
    type DeserializeOutput = u16;

    open spec fn encoding(&self) -> Seq<u8> {
        prim_encoding(*self)
    }

    open spec fn model(&self) -> u16 {
        *self
    }

    open spec fn parse(b: Seq<u8>) -> Option<(u16, nat)> {
        parse_prim::<u16>(b)
    }

    fn serialize(&self, to: &mut Vec<u8>) {
        write_prim(*self, to);
    }

    fn deserialize(from: &[u8], at: usize) -> (r: Result<(u16, usize), Error>) {
        read_prim::<u16>(from, at)
    }

    fn serialized_len(&self) -> (n: u64) {
        proof {
            lemma_prim_round_trip(*self, Seq::empty());
        }
        2
    }

    proof fn lemma_round_trip(&self, rest: Seq<u8>) {
        lemma_prim_round_trip(*self, rest);
    }
}

impl Serialize for u32 {
    type DeserializeOutput = u32;

    open spec fn encoding(&self) -> Seq<u8> {
        prim_encoding(*self)
    }

    open spec fn model(&self) -> u32 {
        *self
    }

    open spec fn parse(b: Seq<u8>) -> Option<(u32, nat)> {
        parse_prim::<u32>(b)
    }

    fn serialize(&self, to: &mut Vec<u8>) {
        write_prim(*self, to);
    }

    fn deserialize(from: &[u8], at: usize) -> (r: Result<(u32, usize), Error>) {
        read_prim::<u32>(from, at)
    }

    fn serialized_len(&self) -> (n: u64) {
        proof {
            lemma_prim_round_trip(*self, Seq::empty());
        }
        4
    }

    proof fn lemma_round_trip(&self, rest: Seq<u8>) {
        lemma_prim_round_trip(*self, rest);
    }
}

impl Serialize for u64 {
    type DeserializeOutput = u64;

    open spec fn encoding(&self) -> Seq<u8> {
        prim_encoding(*self)
    }

    open spec fn model(&self) -> u64 {
        *self
    }

    open spec fn parse(b: Seq<u8>) -> Option<(u64, nat)> {
        parse_prim::<u64>(b)
    }

    fn serialize(&self, to: &mut Vec<u8>) {
        write_prim(*self, to);
    }

    fn deserialize(from: &[u8], at: usize) -> (r: Result<(u64, usize), Error>) {
        read_prim::<u64>(from, at)
    }

    fn serialized_len(&self) -> (n: u64) {
        proof {
            lemma_prim_round_trip(*self, Seq::empty());
        }
        8
    }

    proof fn lemma_round_trip(&self, rest: Seq<u8>) {
        lemma_prim_round_trip(*self, rest);
    }
}

impl Serialize for usize {
    type DeserializeOutput = usize;

    open spec fn encoding(&self) -> Seq<u8> {
        prim_encoding(*self)
    }

    open spec fn model(&self) -> usize {
        *self
    }

    open spec fn parse(b: Seq<u8>) -> Option<(usize, nat)> {
        parse_prim::<usize>(b)
    }

    fn serialize(&self, to: &mut Vec<u8>) {
        write_prim(*self, to);
    }

    fn deserialize(from: &[u8], at: usize) -> (r: Result<(usize, usize), Error>) {
        read_prim::<usize>(from, at)
    }

    fn serialized_len(&self) -> (n: u64) {
        proof {
            lemma_prim_round_trip(*self, Seq::empty());
        }
        8
    }

    proof fn lemma_round_trip(&self, rest: Seq<u8>) {
        lemma_prim_round_trip(*self, rest);
    }
}

impl Serialize for i8 {
    type DeserializeOutput = i8;

    open spec fn encoding(&self) -> Seq<u8> {
        prim_encoding(*self)
    }

    open spec fn model(&self) -> i8 {
        *self
    }

    open spec fn parse(b: Seq<u8>) -> Option<(i8, nat)> {
        parse_prim::<i8>(b)
    }

    fn serialize(&self, to: &mut Vec<u8>) {
        write_prim(*self, to);
    }

    fn deserialize(from: &[u8], at: usize) -> (r: Result<(i8, usize), Error>) {
        read_prim::<i8>(from, at)
    }

    fn serialized_len(&self) -> (n: u64) {
        proof {
            lemma_prim_round_trip(*self, Seq::empty());
        }
        1
    }

    proof fn lemma_round_trip(&self, rest: Seq<u8>) {
        lemma_prim_round_trip(*self, rest);
    }
}

impl Serialize for i16 {
    type DeserializeOutput = i16;

    open spec fn encoding(&self) -> Seq<u8> {
        prim_encoding(*self)
    }

    open spec fn model(&self) -> i16 {
        *self
    }

    open spec fn parse(b: Seq<u8>) -> Option<(i16, nat)> {
        parse_prim::<i16>(b)
    }

    fn serialize(&self, to: &mut Vec<u8>) {
        write_prim(*self, to);
    }

    fn deserialize(from: &[u8], at: usize) -> (r: Result<(i16, usize), Error>) {
        read_prim::<i16>(from, at)
    }

    fn serialized_len(&self) -> (n: u64) {
        proof {
            lemma_prim_round_trip(*self, Seq::empty());
        }
        2
    }

    proof fn lemma_round_trip(&self, rest: Seq<u8>) {
        lemma_prim_round_trip(*self, rest);
    }
}

impl Serialize for i32 {
    type DeserializeOutput = i32;

    open spec fn encoding(&self) -> Seq<u8> {
        prim_encoding(*self)
    }

    open spec fn model(&self) -> i32 {
        *self
    }

    open spec fn parse(b: Seq<u8>) -> Option<(i32, nat)> {
        parse_prim::<i32>(b)
    }

    fn serialize(&self, to: &mut Vec<u8>) {
        write_prim(*self, to);
    }

    fn deserialize(from: &[u8], at: usize) -> (r: Result<(i32, usize), Error>) {
        read_prim::<i32>(from, at)
    }

    fn serialized_len(&self) -> (n: u64) {
        proof {
            lemma_prim_round_trip(*self, Seq::empty());
        }
        4
    }

    proof fn lemma_round_trip(&self, rest: Seq<u8>) {
        lemma_prim_round_trip(*self, rest);
    }
}

impl Serialize for i64 {
    type DeserializeOutput = i64;

    open spec fn encoding(&self) -> Seq<u8> {
        prim_encoding(*self)
    }

    open spec fn model(&self) -> i64 {
        *self
    }

    open spec fn parse(b: Seq<u8>) -> Option<(i64, nat)> {
        parse_prim::<i64>(b)
    }

    fn serialize(&self, to: &mut Vec<u8>) {
        write_prim(*self, to);
    }

    fn deserialize(from: &[u8], at: usize) -> (r: Result<(i64, usize), Error>) {
        read_prim::<i64>(from, at)
    }

    fn serialized_len(&self) -> (n: u64) {
        proof {
            lemma_prim_round_trip(*self, Seq::empty());
        }
        8
    }

    proof fn lemma_round_trip(&self, rest: Seq<u8>) {
        lemma_prim_round_trip(*self, rest);
    }
}

impl<T: Primitive> Serialize for Vec<T> {
    type DeserializeOutput = Vec<T>;

    open spec fn encoding(&self) -> Seq<u8> {
        seq_encoding(self@)
    }

    open spec fn model(&self) -> Seq<T> {
        self@
    }

    open spec fn parse(b: Seq<u8>) -> Option<(Seq<T>, nat)> {
        parse_seq::<T>(b)
    }

    fn serialize(&self, to: &mut Vec<u8>) {
        write_seq(self.as_slice(), to);
    }

    fn deserialize(from: &[u8], at: usize) -> (r: Result<(Vec<T>, usize), Error>) {
        read_seq::<T>(from, at)
    }

    fn serialized_len(&self) -> (n: u64) {
        seq_len::<T>(self.as_slice())
    }

    proof fn lemma_round_trip(&self, rest: Seq<u8>) {
        lemma_seq_len_bound(self@);
        lemma_seq_round_trip(self@, rest);
    }
}

impl<'a, T: Primitive> Serialize for &'a [T] {
    type DeserializeOutput = Vec<T>;

    open spec fn encoding(&self) -> Seq<u8> {
        seq_encoding(self@)
    }

    open spec fn model(&self) -> Seq<T> {
        self@
    }

    open spec fn parse(b: Seq<u8>) -> Option<(Seq<T>, nat)> {
        parse_seq::<T>(b)
    }

    fn serialize(&self, to: &mut Vec<u8>) {
        write_seq(*self, to);
    }

    fn deserialize(from: &[u8], at: usize) -> (r: Result<(Vec<T>, usize), Error>) {
        read_seq::<T>(from, at)
    }

    fn serialized_len(&self) -> (n: u64) {
        seq_len::<T>(*self)
    }

    proof fn lemma_round_trip(&self, rest: Seq<u8>) {
        lemma_seq_len_bound(self@);
        lemma_seq_round_trip(self@, rest);
    }
}

/// What `String::from_utf8_lossy` makes of bytes that are not valid UTF-8.
pub uninterp spec fn lossy_utf8(b: Seq<u8>) -> Seq<char>;

/// The text that bytes read as: valid UTF-8 as it stands, anything else with
/// each invalid run replaced.
pub open spec fn text_of(b: Seq<u8>) -> Seq<char> {
    if valid_utf8(b) {
        decode_utf8(b)
    } else {
        lossy_utf8(b)
    }
}

/// The bytes of a text: its UTF-8 byte count in eight bytes, then its UTF-8
/// bytes.
pub open spec fn text_encoding(t: Seq<char>) -> Seq<u8> {
    seq_encoding::<u8>(encode_utf8(t))
}

/// A text read from the front of `b`, with the number of bytes it took;
/// `None` when `b` holds fewer bytes than the length prefix calls for.
pub open spec fn parse_text(b: Seq<u8>) -> Option<(Seq<char>, nat)> {
    match parse_seq::<u8>(b) {
        Some((bytes, n)) => Some((text_of(bytes), n)),
        None => None,
    }
}

/// Relies on `String::from_utf8_lossy`: valid UTF-8 comes back as the text it
/// spells, and the result depends on the bytes alone.
#[verifier::external_body]
fn text_from_utf8_lossy(b: &[u8]) -> (r: String)
    ensures
        valid_utf8(b@) ==> r@ == decode_utf8(b@),
        !valid_utf8(b@) ==> r@ == lossy_utf8(b@),
{
    String::from_utf8_lossy(b).into_owned()
}

/// Appends the bytes of a text.
pub fn write_text(t: &str, to: &mut Vec<u8>)
    ensures
        final(to)@ == old(to)@ + text_encoding(t@),
{
    write_seq::<u8>(t.as_bytes(), to);
}

/// Reads a text at `at`: its byte count, then that many bytes, which are
/// read as UTF-8 with invalid runs replaced rather than refused.
pub fn read_text(from: &[u8], at: usize) -> (r: Result<(String, usize), Error>)
    ensures
        match parse_text(tail(from@, at as nat)) {
            Some((t, n)) => r matches Ok((x, end)) && x@ == t && end == at + n,
            None => r matches Err(Error::UnexpectedEof),
        },
{
    match read_seq::<u8>(from, at) {
        Ok((bytes, end)) => Ok((text_from_utf8_lossy(bytes.as_slice()), end)),
        Err(e) => Err(e),
    }
}

/// The byte length of a text's encoding.
fn text_len(t: &str) -> (n: u64)
    requires
        text_encoding(t@).len() <= u64::MAX,
    ensures
        n == text_encoding(t@).len(),
{
    seq_len::<u8>(t.as_bytes())
}

/// A text is read back from the front of its own bytes, whatever follows
/// them.
pub proof fn lemma_text_round_trip(t: Seq<char>, rest: Seq<u8>)
    requires
        text_encoding(t).len() <= u64::MAX,
    ensures
        parse_text(text_encoding(t) + rest) == Some((t, text_encoding(t).len())),
{
    let b = encode_utf8(t);
    lemma_seq_len_bound::<u8>(b);
    lemma_seq_round_trip::<u8>(b, rest);
    encode_utf8_valid_utf8(t);
    encode_utf8_decode_utf8(t);
}

impl Serialize for String {
    type DeserializeOutput = String;

    open spec fn encoding(&self) -> Seq<u8> {
        text_encoding(self@)
    }

    open spec fn model(&self) -> Seq<char> {
        self@
    }

    open spec fn parse(b: Seq<u8>) -> Option<(Seq<char>, nat)> {
        parse_text(b)
    }

    fn serialize(&self, to: &mut Vec<u8>) {
        write_text(self.as_str(), to);
    }

    fn deserialize(from: &[u8], at: usize) -> (r: Result<(String, usize), Error>) {
        read_text(from, at)
    }

    fn serialized_len(&self) -> (n: u64) {
        text_len(self.as_str())
    }

    proof fn lemma_round_trip(&self, rest: Seq<u8>) {
        lemma_text_round_trip(self@, rest);
    }
}

impl<'a> Serialize for &'a str {
    type DeserializeOutput = String;

    open spec fn encoding(&self) -> Seq<u8> {
        text_encoding(self@)
    }

    open spec fn model(&self) -> Seq<char> {
        self@
    }

    open spec fn parse(b: Seq<u8>) -> Option<(Seq<char>, nat)> {
        parse_text(b)
    }

    fn serialize(&self, to: &mut Vec<u8>) {
        write_text(*self, to);
    }

    fn deserialize(from: &[u8], at: usize) -> (r: Result<(String, usize), Error>) {
        read_text(from, at)
    }

    fn serialized_len(&self) -> (n: u64) {
        text_len(*self)
    }

    proof fn lemma_round_trip(&self, rest: Seq<u8>) {
        lemma_text_round_trip(self@, rest);
    }
}

/// The encoded lengths: a fixed-width value takes its width, a sequence
/// eight bytes plus its elements' widths, a text eight bytes plus its UTF-8
/// bytes.
pub proof fn lemma_encoded_lengths<T: Primitive>(v: T, s: Seq<T>, t: Seq<char>)
    ensures
        prim_encoding(v).len() == T::width(),
        seq_encoding(s).len() == 8 + s.len() * T::width(),
        text_encoding(t).len() == 8 + encode_utf8(t).len(),
{
    lemma_prim_round_trip(v, Seq::empty());
    lemma_elems_layout(s);
    lemma_elems_layout::<u8>(encode_utf8(t));
    crate::bytes::lemma_le_bytes_len(s.len(), 8);
    crate::bytes::lemma_le_bytes_len(encode_utf8(t).len(), 8);
}

/// The byte length of a sequence's encoding: eight for the count, then the
/// elements' widths.
fn seq_len<T: Primitive>(s: &[T]) -> (n: u64)
    requires
        seq_encoding(s@).len() <= u64::MAX,
    ensures
        n == seq_encoding(s@).len(),
{
    proof {
        lemma_seq_len_bound(s@);
        lemma_seq_round_trip(s@, Seq::empty());
        T::lemma_width();
    }
    let len = s.len() as u64;
    let w = T::byte_width() as u64;
    len * w + 8
}

/// A sequence whose encoding fits in `u64::MAX` bytes has fewer than
/// `256^8` elements, so its count fits in the eight-byte prefix.
proof fn lemma_seq_len_bound<T: Primitive>(s: Seq<T>)
    requires
        seq_encoding(s).len() <= u64::MAX,
    ensures
        s.len() < pow256(8),
{
    lemma_elems_layout(s);
    T::lemma_width();
    crate::bytes::lemma_le_bytes_len(s.len(), 8);
    reveal_with_fuel(pow256, 9);
    assert(s.len() <= s.len() * T::width()) by (nonlinear_arith)
        requires
            T::width() >= 1,
    ;
}

} // verus!
