//! Where a diagnostic points in its source.
use vstd::prelude::*;

verus! {

/// The byte range a parse error at byte offset `start` highlights: the one
/// byte there (clamped at the end of the address space).
pub fn parse_error_range(start: usize) -> (r: (usize, usize))
    ensures
        r.0 == start,
        r.1 == if start == usize::MAX { start as int } else { start + 1 },
{
    let end = if start == usize::MAX { start } else { start + 1 };
    (start, end)
}

} // verus!
