use vstd::prelude::*;

verus! {

/// Every way an operation of the storage core can fail.
#[derive(Debug, Clone, Copy, PartialEq, Eq, Structural)]
pub enum BustubxError {
    /// Every frame is pinned: nothing is free and nothing can be evicted.
    BufferPoolFull,
    /// A frame was asked for although none is free or evictable.
    NoFreeFrame,
    /// A frame id at or beyond the replacer's capacity.
    InvalidFrame,
    /// A page is pinned as often as can be counted.
    CounterOverflow,
    /// The disk holds no page under this id, or the block has the wrong size.
    Io,
    /// The disk has run out of page ids.
    DiskFull,
    /// A slot number at or beyond the number of tuples of its page.
    OutOfRange,
    /// The bytes of a page do not hold a page of the expected kind.
    Corrupt,
    /// A tuple that does not fit the schema it is used with.
    SchemaMismatch,
    /// An encoded page would exceed the page size.
    PageOverflow,
    /// A page has neither a left nor a right sibling to borrow from or merge with.
    NoSibling,
}

pub type BustubxResult<T> = Result<T, BustubxError>;

} // verus!
