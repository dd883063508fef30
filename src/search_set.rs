use vstd::prelude::*;
use crate::search::{clamp, match_count, search, searched, SearchRes};
use crate::supervalue::Supervalue;

verus! {

/// Replaces every node equal to `needle` with a copy of `data` (a map key equal to a
/// string needle is renamed to `data` where `data` is a string). Hands back how many
/// replacements it made.
pub fn search_set(source: &mut Supervalue, needle: &Supervalue, data: &Supervalue) -> (r: usize)
    ensures
        final(source)@ == searched(old(source)@, needle@, Some(data@), true),
        r == clamp(match_count(*old(source), needle@, Some(data@), true)),
{
    let action = SearchRes::Replace(data.clone_value());
    search(true, source, needle, &action)
}

} // verus!
