use vstd::prelude::*;
use vstd::bytes::spec_u32_from_le_bytes;
use vstd::bytes::spec_u32_to_le_bytes;
use vstd::bytes::u32_from_le_bytes;
use vstd::bytes::u32_to_le_bytes;
use vstd::bytes::lemma_auto_spec_u32_to_from_le_bytes;
use crate::errors::DbError;

verus! {

/// An in-memory image of the container file: the exact bytes the file holds.
/// The surrounding program reads the file into an image, runs operations on
/// it, and writes the image back.
pub struct Db {
    pub bytes: Vec<u8>,
}

impl View for Db {
    type V = Seq<u8>;

    open spec fn view(&self) -> Seq<u8> {
        self.bytes@
    }
}

impl Db {
    /// An image holding exactly the given bytes.
    pub fn from_bytes(bytes: Vec<u8>) -> (r: Db)
        ensures
            r@ == bytes@,
    {
        Db { bytes }
    }

    /// The image's bytes, to be written back to the file.
    pub fn into_bytes(self) -> (r: Vec<u8>)
        ensures
            r@ == self@,
    {
        self.bytes
    }
}

/// A sequence of `n` zero bytes.
pub open spec fn zeros(n: int) -> Seq<u8> {
    Seq::new(n as nat, |i: int| 0u8)
}

/// The image after writing `data` at `off`: bytes before `off` are kept,
/// a gap between the old end and `off` is zero-filled, the written range is
/// replaced, and trailing bytes beyond it are kept. Nothing is truncated.
pub open spec fn write_bytes(im: Seq<u8>, off: int, data: Seq<u8>) -> Seq<u8> {
    if off <= im.len() {
        if off + data.len() < im.len() {
            im.take(off) + data + im.skip(off + data.len())
        } else {
            im.take(off) + data
        }
    } else {
        im + zeros(off - im.len()) + data
    }
}

/// Reads exactly `len` bytes at `offset`; a short read is an error, not a
/// partial result.
pub fn read_at(db: &Db, offset: u64, len: usize) -> (r: Result<Vec<u8>, DbError>)
    ensures
        match r {
            Ok(b) => offset + len <= db@.len() && b@ == db@.subrange(
                offset as int,
                offset + len,
            ),
            Err(e) => e == DbError::IoError && offset + len > db@.len(),
        },
{
    if offset > db.bytes.len() as u64 {
        return Err(DbError::IoError);
    }
    let off = offset as usize;
    if db.bytes.len() - off < len {
        return Err(DbError::IoError);
    }
    let mut out: Vec<u8> = Vec::new();
    let mut i: usize = 0;
    while i < len
        invariant
            off + len <= db.bytes@.len(),
            off + len <= usize::MAX,
            i <= len,
            out@ == db.bytes@.subrange(off as int, off + i),
        decreases len - i,
    {
        out.push(db.bytes[off + i]);
        proof {
            assert(out@ =~= db.bytes@.subrange(off as int, off + i + 1));
        }
        i = i + 1;
    }
    Ok(out)
}

/// The byte at position `t` of an image after writing `data` at `off`.
pub open spec fn write_byte_at(im: Seq<u8>, off: int, data: Seq<u8>, t: int) -> u8 {
    if off <= t < off + data.len() {
        data[t - off]
    } else if 0 <= t < im.len() {
        im[t]
    } else {
        0u8
    }
}

/// `write_bytes` pinned down pointwise: its length and each of its bytes.
pub proof fn lemma_write_bytes_index(im: Seq<u8>, off: int, data: Seq<u8>)
    requires
        0 <= off,
    ensures
        write_bytes(im, off, data).len() == if off + data.len() < im.len() {
            im.len() as int
        } else {
            off + data.len()
        },
        forall|t: int|
            0 <= t < write_bytes(im, off, data).len() ==> write_bytes(im, off, data)[t]
                == write_byte_at(im, off, data, t),
{
    let w = write_bytes(im, off, data);
    assert forall|t: int| 0 <= t < w.len() implies w[t] == write_byte_at(im, off, data, t) by {
        if off <= im.len() {
            if off + data.len() < im.len() {
                assert(w == im.take(off) + data + im.skip(off + data.len()));
            } else {
                assert(w == im.take(off) + data);
            }
        } else {
            assert(w == im + zeros(off - im.len()) + data);
        }
    }
}

/// Writes `buf` at `offset`, zero-filling any gap past the old end and
/// keeping trailing bytes beyond the written range.
pub fn write_at(db: &mut Db, offset: u64, buf: &Vec<u8>) -> (r: Result<(), DbError>)
    ensures
        match r {
            Ok(()) => offset + buf@.len() <= usize::MAX && final(db)@ == write_bytes(
                old(db)@,
                offset as int,
                buf@,
            ),
            Err(e) => e == DbError::IoError && offset + buf@.len() > usize::MAX && final(db)@
                == old(db)@,
        },
{
    if offset > usize::MAX as u64 {
        return Err(DbError::IoError);
    }
    if (usize::MAX as u64) - offset < buf.len() as u64 {
        return Err(DbError::IoError);
    }
    let off = offset as usize;
    let n_old = db.bytes.len();
    let end = off + buf.len();
    let total = if end < n_old {
        n_old
    } else {
        end
    };
    proof {
        lemma_write_bytes_index(db.bytes@, off as int, buf@);
    }
    let mut out: Vec<u8> = Vec::new();
    let mut i: usize = 0;
    while i < total
        invariant
            out@.len() == i,
            i <= total,
            off + buf@.len() <= usize::MAX,
            n_old == db.bytes@.len(),
            total == if off + buf@.len() < n_old {
                n_old as int
            } else {
                off + buf@.len()
            },
            forall|t: int| 0 <= t < i ==> out@[t] == write_byte_at(db.bytes@, off as int, buf@, t),
        decreases total - i,
    {
        let b: u8 = if i >= off && i - off < buf.len() {
            buf[i - off]
        } else if i < n_old {
            db.bytes[i]
        } else {
            0u8
        };
        out.push(b);
        i = i + 1;
    }
    proof {
        assert(out@ =~= write_bytes(db.bytes@, off as int, buf@));
    }
    db.bytes = out;
    Ok(())
}

/// The current end of the image: its length in bytes.
pub fn get_eof(db: &Db) -> (r: u64)
    ensures
        r == db@.len(),
{
    db.bytes.len() as u64
}

/// Sets the exact image length: shrinking discards trailing bytes, growing
/// zero-fills.
pub fn truncate(db: &mut Db, new_len: u64) -> (r: Result<(), DbError>)
    ensures
        match r {
            Ok(()) => new_len <= usize::MAX && final(db)@ == (if new_len <= old(db)@.len() {
                old(db)@.take(new_len as int)
            } else {
                old(db)@ + zeros(new_len - old(db)@.len())
            }),
            Err(e) => e == DbError::IoError && new_len > usize::MAX && final(db)@ == old(db)@,
        },
{
    if new_len > usize::MAX as u64 {
        return Err(DbError::IoError);
    }
    let n = new_len as usize;
    if n <= db.bytes.len() {
        db.bytes.truncate(n);
    } else {
        while db.bytes.len() < n
            invariant
                db.bytes@.len() <= n,
                old(db)@.len() < n,
                db.bytes@ == old(db)@ + zeros(db.bytes@.len() - old(db)@.len()),
            decreases n - db.bytes@.len(),
        {
            db.bytes.push(0u8);
            proof {
                assert(db.bytes@ =~= old(db)@ + zeros(db.bytes@.len() - old(db)@.len()));
            }
        }
    }
    Ok(())
}

/// Reads exactly `len` bytes at `offset`.
pub fn read_exact_at(db: &Db, offset: u64, len: usize) -> (r: Result<Vec<u8>, DbError>)
    ensures
        match r {
            Ok(b) => offset + len <= db@.len() && b@ == db@.subrange(
                offset as int,
                offset + len,
            ),
            Err(e) => e == DbError::IoError && offset + len > db@.len(),
        },
{
    read_at(db, offset, len)
}

/// Writes exactly `buf` at `offset`.
pub fn write_exact_at(db: &mut Db, offset: u64, buf: &Vec<u8>) -> (r: Result<(), DbError>)
    ensures
        match r {
            Ok(()) => offset + buf@.len() <= usize::MAX && final(db)@ == write_bytes(
                old(db)@,
                offset as int,
                buf@,
            ),
            Err(e) => e == DbError::IoError && offset + buf@.len() > usize::MAX && final(db)@
                == old(db)@,
        },
{
    write_at(db, offset, buf)
}

/// Reads the 4 bytes at `offset`.
pub fn read_exact_4(db: &Db, offset: u64) -> (r: Result<Vec<u8>, DbError>)
    ensures
        match r {
            Ok(b) => offset + 4 <= db@.len() && b@ == db@.subrange(offset as int, offset + 4),
            Err(e) => e == DbError::IoError && offset + 4 > db@.len(),
        },
{
    read_at(db, offset, 4)
}

/// Writes a 4-byte little-endian word at `offset`.
pub fn write_u32_le(db: &mut Db, offset: u64, value: u32) -> (r: Result<(), DbError>)
    ensures
        match r {
            Ok(()) => offset + 4 <= usize::MAX && final(db)@ == write_bytes(
                old(db)@,
                offset as int,
                spec_u32_to_le_bytes(value),
            ),
            Err(e) => e == DbError::IoError && offset + 4 > usize::MAX && final(db)@ == old(
                db,
            )@,
        },
{
    let buf = u32_to_le_bytes(value);
    proof {
        lemma_auto_spec_u32_to_from_le_bytes();
    }
    write_at(db, offset, &buf)
}

/// The length-prefixed record starting at `pos`: its payload and the
/// position just past it, or nothing if the prefix or payload would run
/// beyond the image's end.
pub open spec fn rec_at(im: Seq<u8>, pos: int) -> Option<(Seq<u8>, int)> {
    if pos < 0 || pos + 4 > im.len() {
        None
    } else {
        let l = spec_u32_from_le_bytes(im.subrange(pos, pos + 4)) as int;
        if pos + 4 + l > im.len() {
            None
        } else {
            Some((im.subrange(pos + 4, pos + 4 + l), pos + 4 + l))
        }
    }
}

/// A record framed for storage: a 4-byte little-endian length, then the
/// payload itself.
pub open spec fn frame(payload: Seq<u8>) -> Seq<u8>
    recommends
        payload.len() <= u32::MAX,
{
    spec_u32_to_le_bytes(payload.len() as u32) + payload
}

/// Reads the length-prefixed record at `offset`: its payload and the offset
/// just past it. A short read of the prefix or the payload yields `None`.
pub fn read_document(db: &Db, offset: u64) -> (r: Option<(Vec<u8>, u64)>)
    ensures
        match r {
            Some((payload, next)) => rec_at(db@, offset as int) == Some((payload@, next as int)),
            None => rec_at(db@, offset as int) is None,
        },
{
    let image_len: usize = db.bytes.len();
    let len_buf = match read_at(db, offset, 4) {
        Ok(b) => b,
        Err(_) => {
            return None;
        },
    };
    proof {
        assert(offset + 4 <= image_len);
    }
    let len = u32_from_le_bytes(len_buf.as_slice());
    let payload = match read_at(db, offset + 4, len as usize) {
        Ok(b) => b,
        Err(_) => {
            return None;
        },
    };
    Some((payload, offset + 4 + len as u64))
}

/// Appends one framed record at the image's end.
pub fn write_document(db: &mut Db, payload: &Vec<u8>) -> (r: Result<(), DbError>)
    ensures
        match r {
            Ok(()) => payload@.len() <= u32::MAX && old(db)@.len() + 4 + payload@.len()
                <= usize::MAX && final(db)@ == old(db)@ + frame(payload@),
            Err(e) => e == DbError::IoError && final(db)@ == old(db)@ && (payload@.len() > u32::MAX || old(
                db,
            )@.len() + 4 + payload@.len() > usize::MAX),
        },
{
    if payload.len() as u64 > u32::MAX as u64 {
        return Err(DbError::IoError);
    }
    if (usize::MAX as u64) - (db.bytes.len() as u64) < 4 + (payload.len() as u64) {
        return Err(DbError::IoError);
    }
    let ghost before = db.bytes@;
    let mut len_buf = u32_to_le_bytes(payload.len() as u32);
    proof {
        lemma_auto_spec_u32_to_from_le_bytes();
    }
    db.bytes.append(&mut len_buf);
    let mut i: usize = 0;
    while i < payload.len()
        invariant
            i <= payload@.len(),
            db.bytes@ == before + spec_u32_to_le_bytes(payload@.len() as u32) + payload@.take(
                i as int,
            ),
        decreases payload@.len() - i,
    {
        db.bytes.push(payload[i]);
        proof {
            assert(db.bytes@ =~= before + spec_u32_to_le_bytes(payload@.len() as u32)
                + payload@.take(i + 1));
        }
        i = i + 1;
    }
    proof {
        assert(db.bytes@ =~= before + frame(payload@));
    }
    Ok(())
}


/// A fresh byte vector holding the same bytes.
pub fn clone_bytes(v: &Vec<u8>) -> (r: Vec<u8>)
    ensures
        r@ == v@,
{
    let mut out: Vec<u8> = Vec::new();
    let mut i: usize = 0;
    while i < v.len()
        invariant
            i <= v@.len(),
            out@ == v@.take(i as int),
        decreases v@.len() - i,
    {
        out.push(v[i]);
        proof {
            assert(out@ =~= v@.take(i + 1));
        }
        i = i + 1;
    }
    proof {
        assert(v@.take(v@.len() as int) =~= v@);
    }
    out
}

} // verus!
