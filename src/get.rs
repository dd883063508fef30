use vstd::prelude::*;
use crate::supervalue::{Supervalue, Tree};
use crate::supervalue_path::DataPath;
use crate::utils::{
    at_path, lemma_read_only_walk, walk, walk_outcome, AtPathEarlyRes, AtPathEndRes, AtPathFound, AtPathPolicy,
    AtPathRoot,
};

verus! {

/// Reading: with `missing_ok` a missing key or index reads as nothing; without it that
/// fails. A scalar in the way always fails.
pub open spec fn get_policy(missing_ok: bool) -> AtPathPolicy {
    AtPathPolicy {
        early_missing: if missing_ok { AtPathEarlyRes::Return } else { AtPathEarlyRes::Fail },
        early_untraversable: AtPathEarlyRes::Fail,
        end_missing: if missing_ok { AtPathEndRes::Return } else { AtPathEndRes::Fail },
        end_found: AtPathFound::Read,
        root: AtPathRoot::Read,
    }
}

/// A copy of the node at `path`, or `None` where it is missing and `missing_ok` is set.
/// Fails on a scalar in the way or a segment that is not an index into a sequence, and,
/// without `missing_ok`, on a missing key or index.
pub fn get(root: &mut Supervalue, path: &DataPath, missing_ok: bool) -> (r: Result<Option<Supervalue>, String>)
    ensures
        final(root)@ == old(root)@,
        walk_outcome(r, walk(old(root)@, path@, get_policy(missing_ok), Tree::Null).1, path@, 0),
{
    let policy = AtPathPolicy {
        early_missing: if missing_ok { AtPathEarlyRes::Return } else { AtPathEarlyRes::Fail },
        early_untraversable: AtPathEarlyRes::Fail,
        end_missing: if missing_ok { AtPathEndRes::Return } else { AtPathEndRes::Fail },
        end_found: AtPathFound::Read,
        root: AtPathRoot::Read,
    };
    proof {
        lemma_read_only_walk(root@, path@, policy, Tree::Null);
    }
    at_path(path, root, &policy, &Supervalue::Null)
}

} // verus!
