use vstd::prelude::*;
use crate::merge::{merge, merged};
use crate::set::{lemma_set_into_empty, path_tree};
use crate::supervalue::{Supervalue, SupervalueMap, SupervalueMapType, Tree};
use crate::supervalue_path::DataPath;
use crate::utils::{unit_outcome, at_path, walk, Walked, AtPathEarlyRes, AtPathEndRes, AtPathFound, AtPathPolicy, AtPathRoot};

verus! {

/// Taking out: like removing (a scalar in the way always fails), but the empty path
/// leaves the document alone.
pub open spec fn keep_policy(missing_ok: bool) -> AtPathPolicy {
    AtPathPolicy {
        early_missing: if missing_ok { AtPathEarlyRes::Return } else { AtPathEarlyRes::Fail },
        early_untraversable: AtPathEarlyRes::Fail,
        end_missing: if missing_ok { AtPathEndRes::Return } else { AtPathEndRes::Fail },
        end_found: AtPathFound::Remove,
        root: AtPathRoot::Nothing,
    }
}

/// The document an optional value stands for.
pub open spec fn opt_tree(o: Option<Supervalue>) -> Option<Tree> {
    match o {
        Some(v) => Some(v@),
        None => None,
    }
}

/// The accumulated output so far, an empty map where there is none yet.
pub open spec fn tree_or_empty(o: Option<Supervalue>) -> Tree {
    match o {
        Some(v) => v@,
        None => Tree::empty_map(),
    }
}

/// Moves the node at `path` out of `source` and merges it, at the same path, into `out`
/// (which starts as an empty map). Repeated over several paths this projects the
/// document onto them.
pub fn keep(source: &mut Supervalue, out: &mut Option<Supervalue>, path: &DataPath, missing_ok: bool) -> (r:
    Result<(), String>)
    ensures
        final(source)@ == walk(old(source)@, path@, keep_policy(missing_ok), Tree::Null).0,
        unit_outcome(r, walk(old(source)@, path@, keep_policy(missing_ok), Tree::Null).1, path@),
        match walk(old(source)@, path@, keep_policy(missing_ok), Tree::Null).1 {
            Walked::Done(Some(x)) => opt_tree(*final(out)) == Some(
                merged(tree_or_empty(*old(out)), path_tree(path@, x)),
            ),
            _ => opt_tree(*final(out)) == opt_tree(*old(out)),
        },
{
    let policy = AtPathPolicy {
        early_missing: if missing_ok { AtPathEarlyRes::Return } else { AtPathEarlyRes::Fail },
        early_untraversable: AtPathEarlyRes::Fail,
        end_missing: if missing_ok { AtPathEndRes::Return } else { AtPathEndRes::Fail },
        end_found: AtPathFound::Remove,
        root: AtPathRoot::Nothing,
    };
    match at_path(path, source, &policy, &Supervalue::Null) {
        Err(e) => Err(e),
        Ok(None) => Ok(()),
        Ok(Some(found)) => {
            let mut temp = Supervalue::Mapping(SupervalueMap::new(SupervalueMapType::Normal));
            proof {
                assert(temp@ == Tree::empty_map());
                lemma_set_into_empty(path@, found@);
            }
            match crate::set::set(&mut temp, path, &found, true) {
                Ok(()) => {},
                Err(e) => {
                    return Err(e);
                },
            }
            match out {
                Some(acc) => {
                    merge(acc, temp);
                },
                None => {
                    let mut acc = Supervalue::Mapping(SupervalueMap::new(SupervalueMapType::Normal));
                    proof {
                        assert(acc@ == Tree::empty_map());
                    }
                    merge(&mut acc, temp);
                    *out = Some(acc);
                },
            }
            Ok(())
        },
    }
}

} // verus!
