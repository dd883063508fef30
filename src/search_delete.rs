use vstd::prelude::*;
use crate::search::{clamp, match_count, search, searched, SearchRes};
use crate::supervalue::Supervalue;

verus! {

/// Deletes every node equal to `needle`, and every map entry whose key equals a string
/// needle; a whole document equal to it becomes `Null`. Hands back how many deletions it
/// made.
pub fn search_delete(source: &mut Supervalue, needle: &Supervalue) -> (r: usize)
    ensures
        final(source)@ == searched(old(source)@, needle@, None, true),
        r == clamp(match_count(*old(source), needle@, None, true)),
{
    let action = SearchRes::Delete;
    search(true, source, needle, &action)
}

} // verus!
