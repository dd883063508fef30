use vstd::prelude::*;
use crate::supervalue::{Supervalue, Tree};
use crate::supervalue_path::DataPath;
use crate::utils::{unit_outcome, at_path, walk, AtPathEarlyRes, AtPathEndRes, AtPathFound, AtPathPolicy, AtPathRoot};

verus! {

/// Removing: with `missing_ok` a missing key or index is a no-op; without it that fails.
/// A scalar in the way always fails. The empty path turns the document into `Null`.
pub open spec fn delete_policy(missing_ok: bool) -> AtPathPolicy {
    AtPathPolicy {
        early_missing: if missing_ok { AtPathEarlyRes::Return } else { AtPathEarlyRes::Fail },
        early_untraversable: AtPathEarlyRes::Fail,
        end_missing: if missing_ok { AtPathEndRes::Return } else { AtPathEndRes::Fail },
        end_found: AtPathFound::Remove,
        root: AtPathRoot::Remove,
    }
}

/// Removes the node at `path` from `source`.
pub fn delete(source: &mut Supervalue, path: &DataPath, missing_ok: bool) -> (r: Result<(), String>)
    ensures
        final(source)@ == walk(old(source)@, path@, delete_policy(missing_ok), Tree::Null).0,
        unit_outcome(r, walk(old(source)@, path@, delete_policy(missing_ok), Tree::Null).1, path@),
{
    let policy = AtPathPolicy {
        early_missing: if missing_ok { AtPathEarlyRes::Return } else { AtPathEarlyRes::Fail },
        early_untraversable: AtPathEarlyRes::Fail,
        end_missing: if missing_ok { AtPathEndRes::Return } else { AtPathEndRes::Fail },
        end_found: AtPathFound::Remove,
        root: AtPathRoot::Remove,
    };
    match at_path(path, source, &policy, &Supervalue::Null) {
        Ok(_) => Ok(()),
        Err(e) => Err(e),
    }
}

} // verus!
