//! Writing values into a store at an offset, and reading them back.

use vstd::prelude::*;
use crate::bytes::tail;
use crate::error::Error;
use crate::serialize::Serialize;
use crate::store::{RandomAccessFile, lemma_write_at_consecutive, overwrite};

verus! {

/// A value written at an offset no further than the end of the store is
/// read back from that offset, whatever the store held before.
pub proof fn lemma_store_round_trip<T: Serialize>(c: Seq<u8>, at: nat, v: T)
    requires
        at <= c.len(),
        v.encoding().len() <= u64::MAX,
    ensures
        T::parse(tail(overwrite(c, at, v.encoding()), at)) == Some((v.model(), v.encoding().len())),
{
    let e = v.encoding();
    let rest = if at + e.len() < c.len() {
        c.subrange((at + e.len()) as int, c.len() as int)
    } else {
        Seq::empty()
    };
    assert(tail(overwrite(c, at, e), at) =~= e + rest);
    v.lemma_round_trip(rest);
}

/// What one write of the rest means for `write_all_at`: a failure is
/// passed on, a write that took nothing is `WriteZero`, and otherwise the
/// count written so far moves on by what was taken.
pub fn advance_write(done: usize, remaining: usize, step: Result<usize, Error>) -> (r: Result<
    usize,
    Error,
>)
    requires
        done + remaining <= usize::MAX,
        step matches Ok(n) ==> n <= remaining,
    ensures
        step matches Ok(n) && n == 0 ==> (r matches Err(Error::WriteZero)),
        step is Ok && step->Ok_0 > 0 ==> r == Ok::<usize, Error>((done + step->Ok_0) as usize),
        step is Err ==> r is Err && r->Err_0 == step->Err_0,
{
    match step {
        Ok(n) => {
            if n == 0 {
                Err(Error::WriteZero)
            } else {
                Ok(done + n)
            }
        },
        Err(e) => Err(e),
    }
}

/// Writes all of `data` at `at`, offering the rest again after each short
/// write; each step is decided by `advance_write`. Fails with `OutOfRange`,
/// before writing anything, when the bytes would reach past `usize::MAX`.
/// Writing no bytes succeeds without touching the store.
pub fn write_all_at<F: RandomAccessFile>(file: &mut F, at: usize, data: &[u8]) -> (r: Result<(), Error>)
    ensures
        final(file).reliable() == old(file).reliable(),
        r is Ok ==> final(file).contents() == overwrite(old(file).contents(), at as nat, data@),
        at + data@.len() > usize::MAX ==> (r matches Err(Error::OutOfRange)) && final(file).contents()
            == old(file).contents(),
        data@.len() == 0 ==> r is Ok && final(file).contents() == old(file).contents(),
        old(file).reliable() && at + data@.len() <= usize::MAX ==> r is Ok,
{
    let m = data.len();
    if m > usize::MAX - at {
        return Err(Error::OutOfRange);
    }
    let ghost c = file.contents();
    assert(overwrite(c, at as nat, data@.subrange(0, 0)) =~= c);
    let mut done: usize = 0;
    while done < m
        invariant
            done <= m == data@.len(),
            at + m <= usize::MAX,
            file.contents() == overwrite(c, at as nat, data@.subrange(0, done as int)),
            file.reliable() == old(file).reliable(),
            c == old(file).contents(),
        decreases m - done,
    {
        let rest = &data[done..m];
        let step = file.write_at(at + done, rest);
        let ghost n = step->Ok_0;
        done = match advance_write(done, m - done, step) {
            Ok(d) => d,
            Err(e) => return Err(e),
        };
        proof {
            lemma_write_at_consecutive(
                c,
                at as nat,
                data@.subrange(0, done - n),
                rest@.subrange(0, n as int),
            );
            assert(data@.subrange(0, done - n) + rest@.subrange(0, n as int) =~= data@.subrange(
                0,
                done as int,
            ));
        }
    }
    assert(data@.subrange(0, m as int) =~= data@);
    if m == 0 {
        assert(overwrite(c, at as nat, data@) =~= c);
    }
    Ok(())
}

/// Writes the bytes of `v` into `file` at `at`; gives the number of bytes
/// written, which is `v`'s encoded length.
pub fn write_value<F: RandomAccessFile, T: Serialize>(file: &mut F, at: usize, v: &T) -> (r: Result<
    usize,
    Error,
>)
    ensures
        r matches Ok(n) ==> n == v.encoding().len() && final(file).contents() == overwrite(
            old(file).contents(),
            at as nat,
            v.encoding(),
        ),
        at + v.encoding().len() > usize::MAX ==> (r matches Err(Error::OutOfRange))
            && final(file).contents() == old(file).contents(),
        old(file).reliable() && at + v.encoding().len() <= usize::MAX ==> r is Ok,
        final(file).reliable() == old(file).reliable(),
{
    let mut buf: Vec<u8> = Vec::new();
    v.serialize(&mut buf);
    assert(buf@ =~= v.encoding());
    match write_all_at(file, at, buf.as_slice()) {
        Ok(()) => Ok(buf.len()),
        Err(e) => Err(e),
    }
}

/// Reads the bytes of `file` from `at` to its end. A failure of the store
/// is passed on; `OutOfRange` comes only from a store that holds more bytes
/// than a `usize` can count, which a reliable store never does.
pub fn read_tail<F: RandomAccessFile>(file: &mut F, at: usize) -> (r: Result<Vec<u8>, Error>)
    ensures
        final(file).contents() == old(file).contents(),
        final(file).reliable() == old(file).reliable(),
        old(file).reliable() ==> r is Ok,
        r matches Ok(b) ==> b@ == tail(old(file).contents(), at as nat),
{
    let ghost c = file.contents();
    let mut out: Vec<u8> = Vec::new();
    let mut chunk: Vec<u8> = vec![0u8; 4096];
    let mut pos: usize = at;
    loop
        invariant
            file.contents() == c,
            c == old(file).contents(),
            file.reliable() == old(file).reliable(),
            chunk@.len() == 4096,
            at <= pos,
            out@.len() == pos - at,
            pos > at ==> pos <= c.len(),
            forall|k: int| 0 <= k < out@.len() ==> out@[k] == c[at + k],
        ensures
            file.contents() == c,
            file.reliable() == old(file).reliable(),
            out@ == tail(c, at as nat),
        decreases (if pos <= c.len() {
            c.len() - pos
        } else {
            0
        }),
    {
        let n = match file.read_at(pos, chunk.as_mut_slice()) {
            Ok(n) => n,
            Err(e) => return Err(e),
        };
        if n == 0 {
            assert(out@ =~= tail(c, at as nat));
            break;
        }
        if n > usize::MAX - pos {
            proof {
                if file.reliable() {
                    file.lemma_reliable_fits();
                }
            }
            return Err(Error::OutOfRange);
        }
        let mut i: usize = 0;
        while i < n
            invariant
                i <= n <= chunk@.len(),
                pos + n <= c.len(),
                at <= pos,
                out@.len() == pos - at + i,
                chunk@.subrange(0, n as int) == c.subrange(pos as int, pos + n),
                forall|k: int| 0 <= k < out@.len() ==> out@[k] == c[at + k],
            decreases n - i,
        {
            assert(chunk@.subrange(0, n as int)[i as int] == chunk@[i as int]);
            out.push(chunk[i]);
            i = i + 1;
        }
        pos = pos + n;
    }
    Ok(out)
}

/// Reads a value of type `T` from `file` at `at`. The bytes from `at` to the
/// end of the store are decoded as `T::deserialize` decodes them; a failure
/// of the store is passed on.
pub fn read_value<F: RandomAccessFile, T: Serialize>(file: &mut F, at: usize) -> (r: Result<
    T::DeserializeOutput,
    Error,
>)
    ensures
        final(file).contents() == old(file).contents(),
        r matches Ok(x) ==> T::parse(tail(old(file).contents(), at as nat)) matches Some((v, _))
            && x@ == v,
        T::parse(tail(old(file).contents(), at as nat)) is None ==> r is Err,
        final(file).reliable() == old(file).reliable(),
        old(file).reliable() ==> (r is Ok <==> T::parse(tail(old(file).contents(), at as nat)) is Some),
        old(file).reliable() && T::parse(tail(old(file).contents(), at as nat)) is None ==> (r matches Err(
            Error::UnexpectedEof,
        )),
{
    let bytes = match read_tail(file, at) {
        Ok(b) => b,
        Err(e) => {
            return Err(e);
        },
    };
    assert(bytes@.subrange(0, bytes@.len() as int) =~= bytes@);
    match T::deserialize(bytes.as_slice(), 0) {
        Ok((x, _)) => Ok(x),
        Err(e) => Err(e),
    }
}

} // verus!
