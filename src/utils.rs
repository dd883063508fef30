use vstd::prelude::*;
use crate::supervalue::{Supervalue, SupervalueMap, SupervalueMapType, Tree, trees_of, lemma_vec_tree};
use crate::supervalue_path::{debug_strings, parse_index, segment_index, strings_between, strings_debug, strings_view, DataPath};

verus! {

/// What a walk does where it cannot go on before the last segment: the key or index is
/// missing, or a scalar stands where a container is needed.
#[derive(Clone, Copy, Debug, PartialEq, Eq, Structural)]
pub enum AtPathEarlyRes {
    /// Stop at once, with nothing read.
    Return,
    /// Put an empty map there and go on (a sequence cannot grow this way: that fails).
    SetAndContinue,
    /// Fail.
    Fail,
}

/// What a walk does where the last key or index is missing.
#[derive(Clone, Copy, Debug, PartialEq, Eq, Structural)]
pub enum AtPathEndRes {
    /// Stop, with nothing read.
    Return,
    /// Insert the walk's value under the key (into a sequence this fails).
    SetAndReturn,
    /// Fail.
    Fail,
}

/// What a walk does with a node that it found at the end of the path.
#[derive(Clone, Copy, Debug, PartialEq, Eq, Structural)]
pub enum AtPathFound {
    /// Hand back a copy of it.
    Read,
    /// Put the walk's value in its place.
    Write,
    /// Take it out of its container and hand it back.
    Remove,
}

/// What a walk with the empty path does with the whole document.
#[derive(Clone, Copy, Debug, PartialEq, Eq, Structural)]
pub enum AtPathRoot {
    /// Hand back a copy of it.
    Read,
    /// Replace it with the walk's value.
    Write,
    /// Replace it with `Null` and hand back what was there.
    Remove,
    /// Leave it and hand back nothing.
    Nothing,
}

/// The decisions that make a walk one operation or another.
#[derive(Clone, Copy, Debug, PartialEq, Eq, Structural)]
pub struct AtPathPolicy {
    pub early_missing: AtPathEarlyRes,
    pub early_untraversable: AtPathEarlyRes,
    pub end_missing: AtPathEndRes,
    pub end_found: AtPathFound,
    pub root: AtPathRoot,
}

/// Why a walk failed.
pub enum Failure {
    /// A scalar stood where a container was needed.
    Untraversable,
    /// A map lacked the key.
    Missing,
    /// The segment into a sequence was not an index.
    NotAnIndex,
    /// The index was past the end of the sequence.
    OutOfRange,
}

/// How a walk ended: with a node read or removed, or nothing, or a failure at the segment
/// with the given position in the walk's path.
pub enum Walked {
    Done(Option<Tree>),
    Failed(Failure, nat),
}

/// The same outcome, for a walk one segment further down.
pub open spec fn shifted(o: Walked) -> Walked {
    match o {
        Walked::Failed(f, d) => Walked::Failed(f, d + 1),
        _ => o,
    }
}

/// The message of a failure at segment `d` of path `p`.
pub open spec fn failure_text(f: Failure, p: Seq<Seq<char>>, d: int) -> Seq<char> {
    match f {
        Failure::Untraversable => "Encountered primitive value at "@ + strings_debug(p.subrange(0, d + 1))
            + ", before reaching end of path"@,
        Failure::Missing => "Encountered object value at "@ + strings_debug(p.subrange(0, d)) + " but the key "@
            + strings_debug(p.subrange(d, d + 1)) + " is missing"@,
        Failure::NotAnIndex => "Encountered sequence at "@ + strings_debug(p.subrange(0, d)) + " but the segment "@
            + strings_debug(p.subrange(d, d + 1)) + " is not an index"@,
        Failure::OutOfRange => "Encountered sequence at "@ + strings_debug(p.subrange(0, d)) + " but the index "@
            + strings_debug(p.subrange(d, d + 1)) + " is past its end"@,
    }
}

/// An executed walk along path `p` ended as `o` says, for a walk that started at segment
/// `base`: the node it hands back, or the failure's message.
pub open spec fn walk_outcome(r: Result<Option<Supervalue>, String>, o: Walked, p: Seq<Seq<char>>, base: int) -> bool {
    match o {
        Walked::Done(Some(t)) => r is Ok && r->Ok_0 is Some && r->Ok_0->0@ == t,
        Walked::Done(None) => r is Ok && r->Ok_0 is None,
        Walked::Failed(f, d) => r is Err && r->Err_0@ == failure_text(f, p, base + d),
    }
}

/// The same for an operation that hands back nothing.
pub open spec fn unit_outcome(r: Result<(), String>, o: Walked, p: Seq<Seq<char>>) -> bool {
    match o {
        Walked::Done(_) => r is Ok,
        Walked::Failed(f, d) => r is Err && r->Err_0@ == failure_text(f, p, d as int),
    }
}

/// A node that a path can step into.
pub open spec fn is_container(t: Tree) -> bool {
    t is Mapping || t is Sequence
}

/// The walk along `p` from `t`: the document afterwards, and how the walk ended. `x` is
/// the value that writes put in place.
pub open spec fn walk(t: Tree, p: Seq<Seq<char>>, pol: AtPathPolicy, x: Tree) -> (Tree, Walked)
    decreases p.len(), 1int,
{
    if p.len() == 0 {
        match pol.root {
            AtPathRoot::Read => (t, Walked::Done(Some(t))),
            AtPathRoot::Write => (x, Walked::Done(None)),
            AtPathRoot::Remove => (Tree::Null, Walked::Done(Some(t))),
            AtPathRoot::Nothing => (t, Walked::Done(None)),
        }
    } else if is_container(t) {
        walk_in(t, p, pol, x)
    } else {
        match pol.early_untraversable {
            AtPathEarlyRes::Return => (t, Walked::Done(None)),
            AtPathEarlyRes::SetAndContinue => walk_in(Tree::empty_map(), p, pol, x),
            AtPathEarlyRes::Fail => (t, Walked::Failed(Failure::Untraversable, 0)),
        }
    }
}

/// One step of a walk from the container `t` along the non-empty path `p`.
pub open spec fn walk_in(t: Tree, p: Seq<Seq<char>>, pol: AtPathPolicy, x: Tree) -> (Tree, Walked)
    decreases p.len(), 0int,
{
    if p.len() == 0 {
        (t, Walked::Failed(Failure::Missing, 0))
    } else {
        let seg = p[0];
        let last = p.len() == 1;
        match t {
            Tree::Mapping(k, m) => {
                if last {
                    if m.contains_key(seg) {
                        match pol.end_found {
                            AtPathFound::Read => (t, Walked::Done(Some(m[seg]))),
                            AtPathFound::Write => (Tree::Mapping(k, m.insert(seg, x)), Walked::Done(None)),
                            AtPathFound::Remove => (Tree::Mapping(k, m.remove(seg)), Walked::Done(Some(m[seg]))),
                        }
                    } else {
                        match pol.end_missing {
                            AtPathEndRes::Return => (t, Walked::Done(None)),
                            AtPathEndRes::SetAndReturn => (Tree::Mapping(k, m.insert(seg, x)), Walked::Done(None)),
                            AtPathEndRes::Fail => (t, Walked::Failed(Failure::Missing, 0)),
                        }
                    }
                } else if m.contains_key(seg) {
                    let (c, o) = walk(m[seg], p.drop_first(), pol, x);
                    (Tree::Mapping(k, m.insert(seg, c)), shifted(o))
                } else {
                    match pol.early_missing {
                        AtPathEarlyRes::Return => (t, Walked::Done(None)),
                        AtPathEarlyRes::SetAndContinue => {
                            let (c, o) = walk(Tree::empty_map(), p.drop_first(), pol, x);
                            (Tree::Mapping(k, m.insert(seg, c)), shifted(o))
                        },
                        AtPathEarlyRes::Fail => (t, Walked::Failed(Failure::Missing, 0)),
                    }
                }
            },
            Tree::Sequence(k, s) => {
                match segment_index(seg) {
                    None => (t, Walked::Failed(Failure::NotAnIndex, 0)),
                    Some(i) => {
                        if i < s.len() {
                            if last {
                                match pol.end_found {
                                    AtPathFound::Read => (t, Walked::Done(Some(s[i as int]))),
                                    AtPathFound::Write => (Tree::Sequence(k, s.update(i as int, x)), Walked::Done(None)),
                                    AtPathFound::Remove => (Tree::Sequence(k, s.remove(i as int)), Walked::Done(Some(s[i as int]))),
                                }
                            } else {
                                let (c, o) = walk(s[i as int], p.drop_first(), pol, x);
                                (Tree::Sequence(k, s.update(i as int, c)), shifted(o))
                            }
                        } else if (last && pol.end_missing == AtPathEndRes::Return) || (!last && pol.early_missing
                            == AtPathEarlyRes::Return) {
                            (t, Walked::Done(None))
                        } else {
                            (t, Walked::Failed(Failure::OutOfRange, 0))
                        }
                    },
                }
            },
            _ => (t, Walked::Failed(Failure::Untraversable, 0)),
        }
    }
}

/// A policy that never changes the document.
pub open spec fn is_read_only(pol: AtPathPolicy) -> bool {
    pol.early_missing != AtPathEarlyRes::SetAndContinue && pol.early_untraversable
        != AtPathEarlyRes::SetAndContinue && pol.end_missing != AtPathEndRes::SetAndReturn && pol.end_found
        == AtPathFound::Read && (pol.root == AtPathRoot::Read || pol.root == AtPathRoot::Nothing)
}

/// A read-only walk leaves the document as it was.
pub proof fn lemma_read_only_walk(t: Tree, p: Seq<Seq<char>>, pol: AtPathPolicy, x: Tree)
    requires
        is_read_only(pol),
    ensures
        walk(t, p, pol, x).0 == t,
        walk_in(t, p, pol, x).0 == t,
    decreases p.len(), 1int,
{
    if p.len() > 0 {
        lemma_read_only_walk_step(t, p, pol, x);
    }
}

proof fn lemma_read_only_walk_step(t: Tree, p: Seq<Seq<char>>, pol: AtPathPolicy, x: Tree)
    requires
        is_read_only(pol),
        p.len() > 0,
    ensures
        walk_in(t, p, pol, x).0 == t,
        walk(t, p, pol, x).0 == t,
    decreases p.len(), 0int,
{
    let seg = p[0];
    match t {
        Tree::Mapping(k, m) => {
            if p.len() > 1 && m.contains_key(seg) {
                lemma_read_only_walk(m[seg], p.drop_first(), pol, x);
                assert(m.insert(seg, m[seg]) =~= m);
            }
        },
        Tree::Sequence(k, s) => {
            if p.len() > 1 {
                match segment_index(seg) {
                    Some(i) => {
                        if i < s.len() {
                            lemma_read_only_walk(s[i as int], p.drop_first(), pol, x);
                            assert(s.update(i as int, s[i as int]) =~= s);
                        }
                    },
                    None => {},
                }
            }
        },
        _ => {},
    }
}

/// The segments of a path from `depth` on.
pub open spec fn segs_from(path: Seq<String>, depth: int) -> Seq<Seq<char>> {
    Seq::new((path.len() - depth) as nat, |i: int| path[depth + i]@)
}

fn untraversable_error(path: &Vec<String>, depth: usize) -> (r: String)
    requires
        depth < path@.len(),
    ensures
        r@ == failure_text(Failure::Untraversable, strings_view(path@), depth as int),
{
    let mut e = String::from_str("Encountered primitive value at ");
    let _n = path.len();
    e.append(debug_strings(&strings_between(path, 0, depth + 1)).as_str());
    e.append(", before reaching end of path");
    e
}

fn segment_error(path: &Vec<String>, depth: usize, f: Failure) -> (r: String)
    requires
        depth < path@.len(),
        !(f is Untraversable),
    ensures
        r@ == failure_text(f, strings_view(path@), depth as int),
{
    let _n = path.len();
    let mut e = match f {
        Failure::Missing => String::from_str("Encountered object value at "),
        _ => String::from_str("Encountered sequence at "),
    };
    e.append(debug_strings(&strings_between(path, 0, depth)).as_str());
    match f {
        Failure::Missing => e.append(" but the key "),
        Failure::NotAnIndex => e.append(" but the segment "),
        _ => e.append(" but the index "),
    }
    e.append(debug_strings(&strings_between(path, depth, depth + 1)).as_str());
    match f {
        Failure::Missing => e.append(" is missing"),
        Failure::NotAnIndex => e.append(" is not an index"),
        _ => e.append(" is past its end"),
    }
    e
}

fn walk_exec(
    path: &Vec<String>,
    depth: usize,
    at: &mut Supervalue,
    pol: &AtPathPolicy,
    x: &Supervalue,
) -> (r: Result<Option<Supervalue>, String>)
    requires
        depth <= path@.len(),
    ensures
        walk(old(at)@, segs_from(path@, depth as int), *pol, x@).0 == final(at)@,
        walk_outcome(r, walk(old(at)@, segs_from(path@, depth as int), *pol, x@).1, strings_view(path@), depth as int),
    decreases path@.len() - depth, 1int,
{
    let ghost p = segs_from(path@, depth as int);
    if depth == path.len() {
        match pol.root {
            AtPathRoot::Read => Ok(Some(at.clone_value())),
            AtPathRoot::Write => {
                *at = x.clone_value();
                Ok(None)
            },
            AtPathRoot::Remove => {
                let mut old_value = Supervalue::Null;
                std::mem::swap(&mut old_value, at);
                Ok(Some(old_value))
            },
            AtPathRoot::Nothing => Ok(None),
        }
    } else {
        match at {
            Supervalue::Mapping(_) => {},
            Supervalue::Vec(_) => {},
            _ => {
                match pol.early_untraversable {
                    AtPathEarlyRes::Return => {
                        return Ok(None);
                    },
                    AtPathEarlyRes::SetAndContinue => {
                        *at = Supervalue::Mapping(SupervalueMap::new(SupervalueMapType::Normal));
                        proof {
                            assert(at@ == Tree::empty_map());
                        }
                    },
                    AtPathEarlyRes::Fail => {
                        return Err(untraversable_error(path, depth));
                    },
                }
            },
        }
        walk_in_exec(path, depth, at, pol, x)
    }
}

fn walk_in_exec(
    path: &Vec<String>,
    depth: usize,
    at: &mut Supervalue,
    pol: &AtPathPolicy,
    x: &Supervalue,
) -> (r: Result<Option<Supervalue>, String>)
    requires
        depth < path@.len(),
        is_container(old(at)@),
    ensures
        walk_in(old(at)@, segs_from(path@, depth as int), *pol, x@).0 == final(at)@,
        walk_outcome(r, walk_in(old(at)@, segs_from(path@, depth as int), *pol, x@).1, strings_view(path@), depth as int),
    decreases path@.len() - depth, 0int,
{
    let ghost p = segs_from(path@, depth as int);
    proof {
        assert(p[0] == path@[depth as int]@);
        assert(p.drop_first() =~= segs_from(path@, depth + 1));
    }
    let last = depth == path.len() - 1;
    let seg = &path[depth];
    match at {
        Supervalue::Mapping(m) => {
            let ghost m0 = *m;
            match m.find(seg) {
                Some(i) => {
                    if last {
                        match pol.end_found {
                            AtPathFound::Read => {
                                let mut found = m.take_at(i);
                                let copy = found.clone_value();
                                m.put_at(i, found);
                                proof {
                                    assert(m.contents() =~= m0.contents());
                                }
                                Ok(Some(copy))
                            },
                            AtPathFound::Write => {
                                m.put_at(i, x.clone_value());
                                Ok(None)
                            },
                            AtPathFound::Remove => Ok(Some(m.remove_at(i))),
                        }
                    } else {
                        let mut child = m.take_at(i);
                        let r = walk_exec(path, depth + 1, &mut child, pol, x);
                        m.put_at(i, child);
                        proof {
                            assert(m.contents() =~= m0.contents().insert(seg@, child@));
                        }
                        r
                    }
                },
                None => {
                    if last {
                        match pol.end_missing {
                            AtPathEndRes::Return => Ok(None),
                            AtPathEndRes::SetAndReturn => {
                                m.insert(seg.clone(), x.clone_value());
                                Ok(None)
                            },
                            AtPathEndRes::Fail => Err(segment_error(path, depth, Failure::Missing)),
                        }
                    } else {
                        match pol.early_missing {
                            AtPathEarlyRes::Return => Ok(None),
                            AtPathEarlyRes::SetAndContinue => {
                                let mut child = Supervalue::Mapping(SupervalueMap::new(SupervalueMapType::Normal));
                                proof {
                                    assert(child@ == Tree::empty_map());
                                }
                                let r = walk_exec(path, depth + 1, &mut child, pol, x);
                                m.insert(seg.clone(), child);
                                r
                            },
                            AtPathEarlyRes::Fail => Err(segment_error(path, depth, Failure::Missing)),
                        }
                    }
                },
            }
        },
        Supervalue::Vec(v) => {
            let ghost v0 = *v;
            proof {
                lemma_vec_tree(*v);
            }
            match parse_index(seg) {
                None => Err(segment_error(path, depth, Failure::NotAnIndex)),
                Some(i) => {
                    if i < v.value.len() {
                        if last {
                            match pol.end_found {
                                AtPathFound::Read => Ok(Some(v.value[i].clone_value())),
                                AtPathFound::Write => {
                                    v.value.set(i, x.clone_value());
                                    proof {
                                        lemma_vec_tree(*v);
                                        assert(trees_of(v.value@) =~= trees_of(v0.value@).update(i as int, x@));
                                    }
                                    Ok(None)
                                },
                                AtPathFound::Remove => {
                                    let removed = v.value.remove(i);
                                    proof {
                                        lemma_vec_tree(*v);
                                        assert(trees_of(v.value@) =~= trees_of(v0.value@).remove(i as int));
                                    }
                                    Ok(Some(removed))
                                },
                            }
                        } else {
                            let mut child = Supervalue::Null;
                            std::mem::swap(&mut child, &mut v.value[i]);
                            let r = walk_exec(path, depth + 1, &mut child, pol, x);
                            v.value.set(i, child);
                            proof {
                                lemma_vec_tree(*v);
                                assert(trees_of(v.value@) =~= trees_of(v0.value@).update(i as int, child@));
                            }
                            r
                        }
                    } else if last {
                        match pol.end_missing {
                            AtPathEndRes::Return => Ok(None),
                            _ => Err(segment_error(path, depth, Failure::OutOfRange)),
                        }
                    } else {
                        match pol.early_missing {
                            AtPathEarlyRes::Return => Ok(None),
                            _ => Err(segment_error(path, depth, Failure::OutOfRange)),
                        }
                    }
                },
            }
        },
        _ => Ok(None),
    }
}

/// Walks `at` along `path`, doing at each step what `policy` says: the engine behind
/// `get`, `set`, `delete` and `keep`. `value` is what writes put in place. Hands back the
/// node read or removed, if any.
pub fn at_path(path: &DataPath, at: &mut Supervalue, policy: &AtPathPolicy, value: &Supervalue) -> (r:
    Result<Option<Supervalue>, String>)
    ensures
        walk(old(at)@, path@, *policy, value@).0 == final(at)@,
        walk_outcome(r, walk(old(at)@, path@, *policy, value@).1, path@, 0),
{
    proof {
        assert(segs_from(path.0@, 0) =~= path@);
        assert(strings_view(path.0@) =~= path@);
    }
    walk_exec(&path.0, 0, at, policy, value)
}

} // verus!
