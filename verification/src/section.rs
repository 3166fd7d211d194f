use vstd::prelude::*;
use crate::errors::DbError;
use crate::io::Db;
use crate::io::read_at;
use crate::io::write_at;
use crate::io::write_bytes;

verus! {

/// A contiguous byte range of the image that grows by appending.
pub struct Section {
    /// Starting offset of this section.
    pub offset: u64,
    /// Current length of the section.
    pub length: u64,
}

impl Section {
    /// An empty section starting at `offset`.
    pub fn new(offset: u64) -> (r: Section)
        ensures
            r.offset == offset,
            r.length == 0,
    {
        Section { offset, length: 0 }
    }

    /// Reads the section's bytes; a section reaching beyond the image's end
    /// is an `IoError`.
    pub fn read(&self, db: &Db) -> (r: Result<Vec<u8>, DbError>)
        ensures
            match r {
                Ok(b) => self.offset + self.length <= db@.len() && b@ == db@.subrange(
                    self.offset as int,
                    self.offset + self.length,
                ),
                Err(e) => e == DbError::IoError && (self.length > usize::MAX || self.offset
                    + self.length > db@.len()),
            },
    {
        if self.length > usize::MAX as u64 {
            return Err(DbError::IoError);
        }
        read_at(db, self.offset, self.length as usize)
    }

    /// Appends `data` at the section's current end and grows the section by
    /// its length.
    pub fn write(&mut self, db: &mut Db, data: &Vec<u8>) -> (r: Result<(), DbError>)
        ensures
            match r {
                Ok(()) => old(self).offset + old(self).length + data@.len() <= usize::MAX
                    && final(db)@ == write_bytes(
                    old(db)@,
                    old(self).offset + old(self).length,
                    data@,
                ) && final(self).offset == old(self).offset && final(self).length == old(
                    self,
                ).length + data@.len(),
                Err(e) => e == DbError::IoError && final(db)@ == old(db)@ && *final(self) == *old(
                    self,
                ) && old(self).offset + old(self).length + data@.len() > usize::MAX,
            },
    {
        if self.offset > u64::MAX - self.length {
            return Err(DbError::IoError);
        }
        let pos = self.offset + self.length;
        match write_at(db, pos, data) {
            Ok(()) => {
                self.length = self.length + data.len() as u64;
                Ok(())
            },
            Err(e) => Err(e),
        }
    }
}

} // verus!
