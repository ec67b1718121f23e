use vstd::prelude::*;

verus! {

/// What can go wrong while decoding pages and walking B-trees.
#[derive(Debug, Clone, Copy, PartialEq, Eq, Structural)]
pub enum DbError {
    /// The 100-byte file header is missing or names an unusable page size.
    MalformedHeader,
    /// A page-kind byte outside {0x02, 0x05, 0x0A, 0x0D}.
    BadPageKind,
    /// A page header or cell-pointer array that does not fit its page.
    MalformedPage,
    /// Page number zero, or one past the end of the file.
    InvalidPageNumber,
    /// A varint that runs past the end of its buffer.
    MalformedVarint,
    /// A reserved serial type, a truncated value, or a cell of the wrong shape.
    MalformedRecord,
    /// A cell whose payload does not fit in the rest of its page.
    UnsupportedOverflow,
    /// A child pointer to a page whose kind is impossible at that position,
    /// or a chain of child pointers longer than the file has pages.
    CorruptLink,
}

} // verus!
