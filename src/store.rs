//! Random-access byte stores: positioned reads and writes, and appends.

use vstd::prelude::*;
use crate::error::Error;

verus! {

/// `c` with the bytes from `at` on replaced by `d`. Where `d` reaches past
/// the end of `c` the store grows; a gap between the old end and `at` reads
/// as zeros. Writing no bytes changes nothing, wherever it is aimed.
pub open spec fn overwrite(c: Seq<u8>, at: nat, d: Seq<u8>) -> Seq<u8> {
    let len = if d.len() > 0 && at + d.len() > c.len() {
        at + d.len()
    } else {
        c.len() as nat
    };
    Seq::new(
        len,
        |i: int|
            if at <= i < at + d.len() {
                d[i - at]
            } else if i < c.len() {
                c[i]
            } else {
                0u8
            },
    )
}

/// Writing the same bytes at the same offset a second time changes nothing:
/// a positioned write overwrites, it never accumulates.
pub proof fn lemma_write_at_idempotent(c: Seq<u8>, at: nat, d: Seq<u8>)
    ensures
        overwrite(overwrite(c, at, d), at, d) == overwrite(c, at, d),
{
    assert(overwrite(overwrite(c, at, d), at, d) =~= overwrite(c, at, d));
}

/// Writing `d1` at `at` and then `d2` just after it is writing `d1 + d2` at
/// `at`.
pub proof fn lemma_write_at_consecutive(c: Seq<u8>, at: nat, d1: Seq<u8>, d2: Seq<u8>)
    ensures
        overwrite(overwrite(c, at, d1), at + d1.len(), d2) == overwrite(c, at, d1 + d2),
{
    assert(overwrite(overwrite(c, at, d1), at + d1.len(), d2) =~= overwrite(c, at, d1 + d2));
}

/// After appending `d` the store is longer by exactly `d.len()` bytes, and
/// reading from the old length gives back `d`.
pub proof fn lemma_append_then_read(c: Seq<u8>, d: Seq<u8>)
    ensures
        (c + d).len() == c.len() + d.len(),
        (c + d).subrange(c.len() as int, (c.len() + d.len()) as int) == d,
{
    assert((c + d).subrange(c.len() as int, (c.len() + d.len()) as int) =~= d);
}

/// A byte-addressable store that can be read and written at any offset and
/// grown at its end.
pub trait RandomAccessFile: Sized {
    /// The bytes the store holds.
    spec fn contents(&self) -> Seq<u8>;

    /// Whether the store never fails: every read succeeds, and every write
    /// or append that stays within `usize::MAX` succeeds and takes all the
    /// bytes offered. A store in memory is reliable; a file on a device need
    /// not be.
    spec fn reliable(&self) -> bool;

    /// A reliable store holds no more bytes than a `usize` can count.
    proof fn lemma_reliable_fits(&self)
        requires
            self.reliable(),
        ensures
            self.contents().len() <= usize::MAX,
    ;

    /// Opens, or creates, the store named `path`.
    fn new(path: &str) -> (r: Result<Self, Error>);

    /// Fills the front of `dat` with the bytes from `at` on, as far as the
    /// store reaches; gives how many bytes it filled. Fewer than asked for,
    /// even none, is no failure: it is the end of the data.
    fn read_at(&mut self, at: usize, dat: &mut [u8]) -> (r: Result<usize, Error>)
        ensures
            final(self).contents() == old(self).contents(),
            final(self).reliable() == old(self).reliable(),
            final(dat)@.len() == old(dat)@.len(),
            old(self).reliable() ==> r is Ok,
            r matches Ok(n) ==> {
                &&& n <= old(dat)@.len()
                &&& n > 0 ==> at + n <= old(self).contents().len() && final(dat)@.subrange(0, n as int)
                    == old(self).contents().subrange(at as int, at + n)
                &&& (n == 0 ==> old(dat)@.len() == 0 || at >= old(self).contents().len())
            },
    ;

    /// Writes the front of `data` over the store from `at` on; gives how
    /// many bytes were written, which may be fewer than offered.
    fn write_at(&mut self, at: usize, data: &[u8]) -> (r: Result<usize, Error>)
        ensures
            final(self).reliable() == old(self).reliable(),
            old(self).reliable() && at + data@.len() <= usize::MAX ==> r == Ok::<usize, Error>(
                data@.len() as usize,
            ),
            r matches Ok(n) ==> n <= data@.len() && final(self).contents() == overwrite(
                old(self).contents(),
                at as nat,
                data@.subrange(0, n as int),
            ),
    ;

    /// Writes all of `data` at the end of the store, or fails.
    fn append(&mut self, data: &[u8]) -> (r: Result<(), Error>)
        ensures
            final(self).reliable() == old(self).reliable(),
            old(self).reliable() && old(self).contents().len() + data@.len() <= usize::MAX ==> r is Ok,
            r is Ok ==> final(self).contents() == old(self).contents() + data@,
    ;

    /// The byte at `index`. Reading at or past the end is an error
    /// (`UnexpectedEof`), never an arbitrary byte.
    fn at(&mut self, index: usize) -> (r: Result<u8, Error>)
        ensures
            final(self).contents() == old(self).contents(),
            final(self).reliable() == old(self).reliable(),
            r matches Ok(b) ==> index < old(self).contents().len() && b == old(self).contents()[index as int],
            index >= old(self).contents().len() ==> r is Err,
            old(self).reliable() && index < old(self).contents().len() ==> r == Ok::<u8, Error>(
                old(self).contents()[index as int],
            ),
            old(self).reliable() && index >= old(self).contents().len() ==> (r matches Err(
                Error::UnexpectedEof,
            )),
    {
        let mut x: Vec<u8> = vec![0u8];
        let read = self.read_at(index, x.as_mut_slice());
        proof {
            if read matches Ok(n) && n > 0 {
                assert(x@.subrange(0, 1)[0] == x@[0]);
            }
        }
        byte_from_read(read, x[0])
    }
}

/// What a one-byte read means for `at`: a failure is passed on, a read of
/// no bytes is the end of the data, and otherwise `byte` is the byte read.
pub fn byte_from_read(read: Result<usize, Error>, byte: u8) -> (r: Result<u8, Error>)
    ensures
        read matches Ok(n) && n == 0 ==> (r matches Err(Error::UnexpectedEof)),
        read matches Ok(n) && n > 0 ==> r == Ok::<u8, Error>(byte),
        read is Err ==> r is Err && r->Err_0 == read->Err_0,
{
    match read {
        Ok(n) => {
            if n == 0 {
                Err(Error::UnexpectedEof)
            } else {
                Ok(byte)
            }
        },
        Err(e) => Err(e),
    }
}

/// A store held in memory.
pub struct MemFile {
    data: Vec<u8>,
}

impl MemFile {
    /// The number of bytes the store holds.
    pub fn len(&self) -> (n: usize)
        ensures
            n == self.contents().len(),
    {
        self.data.len()
    }
}

impl RandomAccessFile for MemFile {
    closed spec fn contents(&self) -> Seq<u8> {
        self.data@
    }

    open spec fn reliable(&self) -> bool {
        true
    }

    proof fn lemma_reliable_fits(&self) {
        assert(self.data.len() == self.data@.len());
    }

    /// A fresh, empty store; the name is not used.
    fn new(path: &str) -> (r: Result<MemFile, Error>)
        ensures
            r matches Ok(f) && f.contents() == Seq::<u8>::empty(),
    {
        Ok(MemFile { data: Vec::new() })
    }

    fn read_at(&mut self, at: usize, dat: &mut [u8]) -> (r: Result<usize, Error>)
        ensures
            r matches Ok(n) && n == (if at >= old(self).contents().len() {
                0
            } else if old(dat)@.len() <= old(self).contents().len() - at {
                old(dat)@.len() as int
            } else {
                old(self).contents().len() - at
            }),
            final(dat)@.subrange(r->Ok_0 as int, old(dat)@.len() as int) == old(dat)@.subrange(
                r->Ok_0 as int,
                old(dat)@.len() as int,
            ),
    {
        let len = self.data.len();
        let want = dat.len();
        let n: usize = if at >= len {
            0
        } else if want <= len - at {
            want
        } else {
            len - at
        };
        let mut i: usize = 0;
        while i < n
            invariant
                i <= n <= want,
                n > 0 ==> at + n <= len,
                len == self.data@.len(),
                self.data@ == old(self).contents(),
                dat@.len() == want == old(dat)@.len(),
                forall|k: int| 0 <= k < i ==> dat@[k] == self.data@[at + k],
                forall|k: int| i <= k < want ==> dat@[k] == old(dat)@[k],
            decreases n - i,
        {
            dat[i] = self.data[at + i];
            i = i + 1;
        }
        if n > 0 {
            assert(dat@.subrange(0, n as int) =~= self.data@.subrange(at as int, at + n));
        }
        assert(dat@.subrange(n as int, want as int) =~= old(dat)@.subrange(n as int, want as int));
        Ok(n)
    }

    /// Fails with `OutOfRange`, and changes nothing, when the write would
    /// reach past `usize::MAX`; otherwise writes all of `data`.
    fn write_at(&mut self, at: usize, data: &[u8]) -> (r: Result<usize, Error>)
        ensures
            at + data@.len() <= usize::MAX ==> r == Ok::<usize, Error>(data@.len() as usize)
                && final(self).contents() == overwrite(old(self).contents(), at as nat, data@),
            at + data@.len() > usize::MAX ==> (r matches Err(Error::OutOfRange)) && final(self).contents()
                == old(self).contents(),
    {
        let m = data.len();
        if m > usize::MAX - at {
            return Err(Error::OutOfRange);
        }
        let ghost c = self.data@;
        if m == 0 {
            assert(overwrite(c, at as nat, data@) =~= c);
            return Ok(0);
        }
        while self.data.len() < at
            invariant
                c.len() <= self.data@.len() <= (if at > c.len() { at as int } else { c.len() as int }),
                forall|k: int| 0 <= k < c.len() ==> self.data@[k] == c[k],
                forall|k: int| c.len() <= k < self.data@.len() ==> self.data@[k] == 0u8,
            decreases at - self.data@.len(),
        {
            self.data.push(0u8);
        }
        let ghost padded = self.data@;
        let mut i: usize = 0;
        while i < m
            invariant
                i <= m == data@.len(),
                at + m <= usize::MAX,
                c.len() <= padded.len() <= (if at > c.len() { at as int } else { c.len() as int }),
                forall|k: int| 0 <= k < c.len() ==> padded[k] == c[k],
                forall|k: int| c.len() <= k < padded.len() ==> padded[k] == 0u8,
                padded.len() >= at,
                i == 0 ==> self.data@ == padded,
                i > 0 ==> self.data@ == overwrite(c, at as nat, data@.subrange(0, i as int)),
            decreases m - i,
        {
            let pos = at + i;
            if pos < self.data.len() {
                self.data.set(pos, data[i]);
            } else {
                self.data.push(data[i]);
            }
            i = i + 1;
            assert(self.data@ =~= overwrite(c, at as nat, data@.subrange(0, i as int)));
        }
        assert(data@.subrange(0, m as int) =~= data@);
        Ok(m)
    }

    /// Fails with `OutOfRange`, and changes nothing, when the store would
    /// grow past `usize::MAX` bytes; otherwise appends all of `data`.
    fn append(&mut self, data: &[u8]) -> (r: Result<(), Error>)
        ensures
            old(self).contents().len() + data@.len() <= usize::MAX ==> r is Ok,
            old(self).contents().len() + data@.len() > usize::MAX ==> r is Err,
            r is Err ==> (r matches Err(Error::OutOfRange)) && final(self).contents()
                == old(self).contents(),
    {
        let m = data.len();
        if m > usize::MAX - self.data.len() {
            return Err(Error::OutOfRange);
        }
        let ghost c = self.data@;
        let mut i: usize = 0;
        while i < m
            invariant
                i <= m == data@.len(),
                self.data@ == c + data@.subrange(0, i as int),
            decreases m - i,
        {
            self.data.push(data[i]);
            i = i + 1;
            assert(self.data@ =~= c + data@.subrange(0, i as int));
        }
        assert(data@.subrange(0, m as int) =~= data@);
        Ok(())
    }
}

} // verus!
