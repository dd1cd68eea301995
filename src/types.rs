use vstd::prelude::*;

verus! {

/// A page number in the database file; `0` stands for "no page".
pub type PageId = usize;

/// The index of an entry of the heap-file directory.
#[derive(PartialEq, Eq, Hash, Clone, Copy, Debug, Structural)]
pub struct EntryNo {
    pub value: usize,
}

impl EntryNo {
    pub fn new(value: usize) -> (r: EntryNo)
        ensures
            r.value == value,
    {
        EntryNo { value }
    }
}

/// The failures the storage engine reports.
#[derive(Debug)]
pub enum Error {
    /// The backing file could not be read or written.
    IoError { msg: String },
    /// A precondition of the call does not hold.
    InvalidArg { msg: String },
    /// The page bitmap has no free page left.
    NoFreePage,
    /// Every frame of the buffer pool is taken.
    BufferFull,
    /// The page has no frame in the buffer pool.
    PageNotFound { page_id: PageId, msg: String },
    /// The catalog holds no attribute of the relation.
    RelationNotFound { name: String },
}

pub type Res<T> = Result<T, Error>;

/// An `InvalidArg` error carrying `msg`.
pub fn invalid_arg(msg: &str) -> (r: Error)
    ensures
        r is InvalidArg,
{
    Error::InvalidArg { msg: msg.to_string() }
}

} // verus!
