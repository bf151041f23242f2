use vstd::prelude::*;

verus! {

/// What went wrong in a call of the library.
#[derive(Debug, Clone, Copy, PartialEq, Eq, Structural)]
pub enum Error {
    /// The bytes of the file break the format: a bad header, a pointer out of its page,
    /// a varint cut short, a tree deeper than the library walks.
    Corrupt,
    /// A page id of zero or past the end of the file.
    PageNotFound,
    /// The cursor has not been positioned yet.
    Uninitialized,
    /// A table operation on an index tree.
    NotTable,
    /// An index operation on a table tree.
    NotIndex,
    /// An offset outside the payload.
    OffsetOutOfRange,
    /// An insert with a key that is already in the tree: updates are not supported.
    DuplicateKey,
    /// An insert whose cell does not fit in the free space of its leaf: splitting is not
    /// supported.
    PageFull,
    /// An insert whose payload would need overflow pages, or into a page with freeblocks.
    Unsupported,
}

impl Error {
    /// A short description of the error.
    pub fn message(&self) -> (r: &'static str) {
        match self {
            Error::Corrupt => "database disk image is malformed",
            Error::PageNotFound => "page id out of range",
            Error::Uninitialized => "cursor is not initialized",
            Error::NotTable => "not a table page",
            Error::NotIndex => "not an index page",
            Error::OffsetOutOfRange => "offset out of payload range",
            Error::DuplicateKey => "update of an existing key is not supported",
            Error::PageFull => "balancing the btree is not supported",
            Error::Unsupported => "unsupported page layout for insert",
        }
    }
}

} // verus!
