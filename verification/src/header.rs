use vstd::prelude::*;
use vstd::bytes::spec_u64_from_le_bytes;
use vstd::bytes::spec_u64_to_le_bytes;
use vstd::bytes::u64_from_le_bytes;
use vstd::bytes::u64_to_le_bytes;
use vstd::bytes::lemma_auto_spec_u64_to_from_le_bytes;
use crate::errors::DbError;
use crate::io::Db;
use crate::io::read_at;
use crate::io::write_at;
use crate::io::write_bytes;
use crate::io::lemma_write_bytes_index;

verus! {

/// Number of bytes of the magic tag.
pub const MAGIC_LEN: u64 = 8;

/// Total header size: magic tag plus the two little-endian u64 TOC bounds.
pub const HEADER_SIZE: u64 = 24;

/// Reserved capacity of the table-of-contents region, fixed at creation.
pub const TOC_CAP: u64 = 1024;

/// First byte offset owned by collection segments.
pub const DATA_START: u64 = HEADER_SIZE + TOC_CAP;

/// The magic tag identifying the format and version: the bytes "ATOLLDB1".
pub open spec fn magic() -> Seq<u8> {
    seq![0x41u8, 0x54u8, 0x4fu8, 0x4cu8, 0x4cu8, 0x44u8, 0x42u8, 0x31u8]
}

/// The 24 header bytes for the given TOC bounds.
pub open spec fn header_bytes(toc_start: u64, toc_end: u64) -> Seq<u8> {
    magic() + spec_u64_to_le_bytes(toc_start) + spec_u64_to_le_bytes(toc_end)
}

/// The header fields an image holds: its leading magic bytes and the two
/// TOC bounds, or nothing if the image is shorter than a header.
pub open spec fn header_of(im: Seq<u8>) -> Option<(Seq<u8>, u64, u64)> {
    if im.len() < HEADER_SIZE {
        None
    } else {
        Some(
            (
                im.take(MAGIC_LEN as int),
                spec_u64_from_le_bytes(im.subrange(MAGIC_LEN as int, 16)),
                spec_u64_from_le_bytes(im.subrange(16, HEADER_SIZE as int)),
            ),
        )
    }
}

/// Whether the image begins with the expected magic tag.
pub open spec fn magic_ok(im: Seq<u8>) -> bool {
    im.len() >= MAGIC_LEN && im.take(MAGIC_LEN as int) == magic()
}

/// The database file header: the magic tag and the byte offsets bounding the
/// table-of-contents region.
pub struct Header {
    /// Magic bytes identifying the file format and version.
    pub magic: Vec<u8>,
    /// Starting offset of the table of contents.
    pub toc_start: u64,
    /// Ending offset of the table of contents.
    pub toc_end: u64,
}

/// The magic byte sequence every image must begin with.
pub fn get_header_magic() -> (r: Vec<u8>)
    ensures
        r@ == magic(),
{
    let mut m: Vec<u8> = Vec::new();
    m.push(0x41u8);
    m.push(0x54u8);
    m.push(0x4fu8);
    m.push(0x4cu8);
    m.push(0x4cu8);
    m.push(0x44u8);
    m.push(0x42u8);
    m.push(0x31u8);
    proof {
        assert(m@ =~= magic());
    }
    m
}

/// Writes the header at the start of the image: the magic tag and the given
/// TOC bounds. Bytes beyond the header are untouched.
pub fn write_header(db: &mut Db, toc_start: u64, toc_end: u64)
    ensures
        final(db)@ == write_bytes(old(db)@, 0, header_bytes(toc_start, toc_end)),
        header_of(final(db)@) == Some((magic(), toc_start, toc_end)),
        magic_ok(final(db)@),
        final(db)@.len() >= HEADER_SIZE,
        old(db)@.len() > HEADER_SIZE ==> final(db)@.len() == old(db)@.len() && final(db)@.skip(
            HEADER_SIZE as int,
        ) == old(db)@.skip(HEADER_SIZE as int),
{
    let mut buf = get_header_magic();
    let mut a = u64_to_le_bytes(toc_start);
    let mut b = u64_to_le_bytes(toc_end);
    buf.append(&mut a);
    buf.append(&mut b);
    proof {
        lemma_auto_spec_u64_to_from_le_bytes();
        assert(buf@ == header_bytes(toc_start, toc_end));
    }
    let r = write_at(db, 0, &buf);
    proof {
        assert(buf@.len() == 24);
        assert(r is Ok);
        let im = old(db)@;
        let hb = header_bytes(toc_start, toc_end);
        let w = write_bytes(im, 0, hb);
        lemma_write_bytes_index(im, 0, hb);
        assert(w.take(MAGIC_LEN as int) =~= magic());
        assert(w.subrange(MAGIC_LEN as int, 16) =~= spec_u64_to_le_bytes(toc_start));
        assert(w.subrange(16, HEADER_SIZE as int) =~= spec_u64_to_le_bytes(toc_end));
        if im.len() > HEADER_SIZE {
            assert(w.skip(HEADER_SIZE as int) =~= im.skip(HEADER_SIZE as int));
        }
    }
}

/// Reads and validates the header: fails with `IoError` if the image is
/// shorter than a header, and with `InvalidFormat` if the magic tag does not
/// match exactly.
pub fn read_header(db: &Db) -> (r: Result<Header, DbError>)
    ensures
        match r {
            Ok(h) => magic_ok(db@) && h.magic@ == magic() && header_of(db@) == Some(
                (magic(), h.toc_start, h.toc_end),
            ),
            Err(e) => (e == DbError::IoError && db@.len() < HEADER_SIZE) || (e
                == DbError::InvalidFormat && db@.len() >= HEADER_SIZE && db@.take(MAGIC_LEN as int)
                != magic()),
        },
{
    let m = match read_at(db, 0, 8) {
        Ok(b) => b,
        Err(_) => {
            return Err(DbError::IoError);
        },
    };
    let a_bytes = match read_at(db, 8, 8) {
        Ok(b) => b,
        Err(_) => {
            return Err(DbError::IoError);
        },
    };
    let b_bytes = match read_at(db, 16, 8) {
        Ok(b) => b,
        Err(_) => {
            return Err(DbError::IoError);
        },
    };
    let expected = get_header_magic();
    if !(m == expected) {
        proof {
            assert(m@ =~= db@.take(MAGIC_LEN as int));
        }
        return Err(DbError::InvalidFormat);
    }
    proof {
        assert(m@ =~= expected@);
        assert(m@ =~= db@.take(MAGIC_LEN as int));
    }
    let toc_start = u64_from_le_bytes(a_bytes.as_slice());
    let toc_end = u64_from_le_bytes(b_bytes.as_slice());
    Ok(Header { magic: expected, toc_start, toc_end })
}

/// Writing a header and reading the fields back yields exactly the bounds
/// written, under the original magic tag, whatever the image held before.
pub proof fn lemma_header_round_trip(im: Seq<u8>, toc_start: u64, toc_end: u64)
    ensures
        header_of(write_bytes(im, 0, header_bytes(toc_start, toc_end))) == Some(
            (magic(), toc_start, toc_end),
        ),
        magic_ok(write_bytes(im, 0, header_bytes(toc_start, toc_end))),
{
    lemma_auto_spec_u64_to_from_le_bytes();
    let hb = header_bytes(toc_start, toc_end);
    let w = write_bytes(im, 0, hb);
    lemma_write_bytes_index(im, 0, hb);
    assert(w.take(MAGIC_LEN as int) =~= magic());
    assert(w.subrange(MAGIC_LEN as int, 16) =~= spec_u64_to_le_bytes(toc_start));
    assert(w.subrange(16, HEADER_SIZE as int) =~= spec_u64_to_le_bytes(toc_end));
}

} // verus!
