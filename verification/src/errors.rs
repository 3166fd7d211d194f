use vstd::prelude::*;

verus! {

/// The failures an operation on a container image can report.
#[derive(Clone, Copy, PartialEq, Eq, Structural, Debug)]
pub enum DbError {
    /// The image does not begin with the expected magic tag.
    InvalidFormat,
    /// A document was rejected by the collection's stored schema.
    SchemaMismatch,
    /// The serialized table of contents does not fit its reserved region.
    TocOverflow,
    /// A read or write fell outside the image, or a size exceeded what the
    /// machine can address.
    IoError,
    /// A stored document's bytes are not a valid encoded document.
    DecodeError,
}

} // verus!
