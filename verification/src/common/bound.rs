use vstd::prelude::*;

verus! {

/// One end of a range over keys or record ids.
#[derive(Debug, Clone, Copy, PartialEq, Eq)]
pub enum Bound<T> {
    Included(T),
    Excluded(T),
    Unbounded,
}

} // verus!
