use vstd::prelude::*;
use crate::supervalue::{Supervalue, Tree};
use crate::supervalue_path::DataPath;
use crate::utils::{unit_outcome, 
    at_path, walk, walk_in, AtPathEarlyRes, AtPathEndRes, AtPathFound, AtPathPolicy, AtPathRoot, Walked,
};

verus! {

/// Writing: with `missing_ok` missing keys are created (and a scalar in the way becomes
/// an empty map); without it they fail.
pub open spec fn set_policy(missing_ok: bool) -> AtPathPolicy {
    AtPathPolicy {
        early_missing: if missing_ok { AtPathEarlyRes::SetAndContinue } else { AtPathEarlyRes::Fail },
        early_untraversable: if missing_ok { AtPathEarlyRes::SetAndContinue } else { AtPathEarlyRes::Fail },
        end_missing: if missing_ok { AtPathEndRes::SetAndReturn } else { AtPathEndRes::Fail },
        end_found: AtPathFound::Write,
        root: AtPathRoot::Write,
    }
}

/// Puts a copy of `value` at `path` in `dest`.
pub fn set(dest: &mut Supervalue, path: &DataPath, value: &Supervalue, missing_ok: bool) -> (r: Result<(), String>)
    ensures
        final(dest)@ == walk(old(dest)@, path@, set_policy(missing_ok), value@).0,
        unit_outcome(r, walk(old(dest)@, path@, set_policy(missing_ok), value@).1, path@),
{
    let policy = AtPathPolicy {
        early_missing: if missing_ok { AtPathEarlyRes::SetAndContinue } else { AtPathEarlyRes::Fail },
        early_untraversable: if missing_ok { AtPathEarlyRes::SetAndContinue } else { AtPathEarlyRes::Fail },
        end_missing: if missing_ok { AtPathEndRes::SetAndReturn } else { AtPathEndRes::Fail },
        end_found: AtPathFound::Write,
        root: AtPathRoot::Write,
    };
    match at_path(path, dest, &policy, value) {
        Ok(_) => Ok(()),
        Err(e) => Err(e),
    }
}

/// A map that holds `x` at path `p` and nothing else (`x` itself for the empty path).
pub open spec fn path_tree(p: Seq<Seq<char>>, x: Tree) -> Tree
    decreases p.len(),
{
    if p.len() == 0 {
        x
    } else {
        Tree::Mapping(
            crate::supervalue::SupervalueMapType::Normal,
            Map::empty().insert(p[0], path_tree(p.drop_first(), x)),
        )
    }
}

/// Setting into an empty map with `missing_ok` always succeeds and builds the path.
pub proof fn lemma_set_into_empty(p: Seq<Seq<char>>, x: Tree)
    ensures
        walk(Tree::empty_map(), p, set_policy(true), x) == (path_tree(p, x), Walked::Done(None)),
    decreases p.len(),
{
    if p.len() == 1 {
        assert(path_tree(p.drop_first(), x) == x);
        assert(walk(Tree::empty_map(), p, set_policy(true), x) == walk_in(Tree::empty_map(), p, set_policy(true), x));
    } else if p.len() > 1 {
        lemma_set_into_empty(p.drop_first(), x);
        assert(walk(Tree::empty_map(), p, set_policy(true), x) == walk_in(Tree::empty_map(), p, set_policy(true), x));
    }
}

} // verus!
