use vstd::prelude::*;
use crate::supervalue_path::{debug_strings, strings_debug, strings_view};
use crate::supervalue::{
    equal_values, has_key, keys_unique, lemma_entries_dom, lemma_entries_index, Supervalue, SupervalueMap, Tree,
};

verus! {

/// Removes from map `s` each key whose value equals the one under the same key in map
/// `o`, recursing where both values are maps and differ. Anything else stays as it is.
pub open spec fn subtracted(s: Tree, o: Tree) -> Tree
    decreases o,
{
    match (s, o) {
        (Tree::Mapping(k, sm), Tree::Mapping(_, om)) => Tree::Mapping(
            k,
            Map::new(
                |key: Seq<char>| sm.contains_key(key) && !(om.contains_key(key) && sm[key] == om[key]),
                |key: Seq<char>|
                    if om.contains_key(key) && sm[key] is Mapping && om[key] is Mapping {
                        subtracted(sm[key], om[key])
                    } else {
                        sm[key]
                    },
            ),
        ),
        _ => s,
    }
}

/// The key paths (each after `prefix`) that subtracting `o` from `s` finds missing, in
/// the order of `o`'s entries: a key of `o` absent from `s`, or, where both values are
/// maps and differ, the paths missing below it.
pub open(crate) spec fn missing_paths(s: Tree, o: Supervalue, prefix: Seq<Seq<char>>) -> Seq<Seq<Seq<char>>>
    decreases o, 1int,
{
    match (s, o) {
        (Tree::Mapping(_, sm), Supervalue::Mapping(om)) => missing_in_entries(sm, om.value@, prefix),
        _ => Seq::empty(),
    }
}

/// The missing paths for a list of entries of `o` against the map `sm` of `s`.
pub open spec fn missing_in_entries(
    sm: Map<Seq<char>, Tree>,
    es: Seq<(String, Supervalue)>,
    prefix: Seq<Seq<char>>,
) -> Seq<Seq<Seq<char>>>
    decreases es, 0int,
{
    if es.len() == 0 {
        Seq::empty()
    } else {
        let key = es.last().0@;
        let prev = missing_in_entries(sm, es.drop_last(), prefix);
        if !sm.contains_key(key) {
            prev.push(prefix.push(key))
        } else if sm[key] != es.last().1@ {
            prev + missing_paths(sm[key], es.last().1, prefix.push(key))
        } else {
            prev
        }
    }
}

/// The report line for one missing path.
pub open spec fn missing_line(q: Seq<Seq<char>>) -> Seq<char> {
    "- Trying to subtract path ["@ + strings_debug(q) + "] but no value exists at that path"@
}

/// The report lines for the missing paths.
pub open spec fn missing_lines(ps: Seq<Seq<Seq<char>>>) -> Seq<Seq<char>> {
    Seq::new(ps.len(), |i: int| missing_line(ps[i]))
}

/// Lines joined by line breaks.
pub open spec fn joined(ls: Seq<Seq<char>>) -> Seq<char>
    decreases ls.len(),
{
    if ls.len() == 0 {
        Seq::empty()
    } else if ls.len() == 1 {
        ls[0]
    } else {
        joined(ls.drop_last()) + "\n"@ + ls.last()
    }
}

/// What subtracting `o` from `s` gives: `Null` where the two are equal.
pub open spec fn subtract_result(s: Tree, o: Tree) -> Tree {
    if s == o {
        Tree::Null
    } else {
        subtracted(s, o)
    }
}

fn recurse(
    errors: &mut Vec<String>,
    path: &mut Vec<String>,
    source: &mut SupervalueMap,
    other: &SupervalueMap,
) -> (missed: bool)
    ensures
        Supervalue::Mapping(*final(source))@ == subtracted(
            Supervalue::Mapping(*old(source))@,
            Supervalue::Mapping(*other)@,
        ),
        final(source).kind() == old(source).kind(),
        final(path)@ == old(path)@,
        ({
            let mp = missing_paths(
                Supervalue::Mapping(*old(source))@,
                Supervalue::Mapping(*other),
                strings_view(old(path)@),
            );
            &&& final(errors)@.len() == old(errors)@.len() + mp.len()
            &&& forall|i: int| 0 <= i < old(errors)@.len() ==> #[trigger] final(errors)@[i] == old(errors)@[i]
            &&& forall|i: int|
                0 <= i < mp.len() ==> #[trigger] final(errors)@[old(errors)@.len() + i]@ == missing_line(mp[i])
            &&& missed == (mp.len() > 0)
        }),
    decreases other,
{
    proof {
        use_type_invariant(&*source);
        use_type_invariant(other);
    }
    let ghost sm0 = source.contents();
    let ghost om0 = other.contents();
    let ghost oe = other.value@;
    let ghost pv = strings_view(path@);
    let ghost e0 = errors@;
    let start = errors.len();
    let mut j: usize = 0;
    proof {
        assert(oe.subrange(0, 0) =~= Seq::<(String, Supervalue)>::empty());
    }
    while j < other.value.len()
        invariant
            keys_unique(oe),
            oe == other.value@,
            om0 == other.contents(),
            sm0 == old(source).contents(),
            source.kind() == old(source).kind(),
            j <= oe.len(),
            path@ == old(path)@,
            pv == strings_view(path@),
            e0 == old(errors)@,
            start == e0.len(),
            source.contents() == Map::new(
                |key: Seq<char>|
                    sm0.contains_key(key) && !(has_key(oe.subrange(0, j as int), key) && om0.contains_key(key)
                        && sm0[key] == om0[key]),
                |key: Seq<char>|
                    if has_key(oe.subrange(0, j as int), key) && om0.contains_key(key) && sm0[key] is Mapping
                        && om0[key] is Mapping {
                        subtracted(sm0[key], om0[key])
                    } else {
                        sm0[key]
                    },
            ),
            errors@.len() == e0.len() + missing_in_entries(sm0, oe.subrange(0, j as int), pv).len(),
            forall|i: int| 0 <= i < e0.len() ==> #[trigger] errors@[i] == e0[i],
            forall|i: int|
                0 <= i < missing_in_entries(sm0, oe.subrange(0, j as int), pv).len() ==> #[trigger] errors@[e0.len()
                    + i]@ == missing_line(missing_in_entries(sm0, oe.subrange(0, j as int), pv)[i]),
        decreases oe.len() - j,
    {
        let ghost key = oe[j as int].0@;
        let ghost prev = missing_in_entries(sm0, oe.subrange(0, j as int), pv);
        let ghost errors_before = errors@;
        proof {
            lemma_entries_index(oe, j as int);
            assert(oe.subrange(0, j + 1).drop_last() =~= oe.subrange(0, j as int));
            assert(oe.subrange(0, j + 1).last() == oe[j as int]);
            assert forall|kk: Seq<char>| kk != key implies has_key(oe.subrange(0, j + 1), kk) == has_key(
                oe.subrange(0, j as int),
                kk,
            ) by {
                if has_key(oe.subrange(0, j + 1), kk) {
                    let a = choose|a: int| 0 <= a < j + 1 && #[trigger] oe.subrange(0, j + 1)[a].0@ == kk;
                    assert(oe.subrange(0, j as int)[a].0@ == kk);
                }
                if has_key(oe.subrange(0, j as int), kk) {
                    let a = choose|a: int| 0 <= a < j && #[trigger] oe.subrange(0, j as int)[a].0@ == kk;
                    assert(oe.subrange(0, j + 1)[a].0@ == kk);
                }
            }
            assert(has_key(oe.subrange(0, j + 1), key)) by {
                assert(oe.subrange(0, j + 1)[j as int].0@ == key);
            }
            assert(!has_key(oe.subrange(0, j as int), key)) by {
                if has_key(oe.subrange(0, j as int), key) {
                    let a = choose|a: int| 0 <= a < j && #[trigger] oe.subrange(0, j as int)[a].0@ == key;
                    assert(oe[a].0@ == oe[j as int].0@);
                }
            }
        }
        path.push(other.value[j].0.clone());
        proof {
            assert(strings_view(path@) =~= pv.push(key));
        }
        match source.find(&other.value[j].0) {
            Some(i) => {
                proof {
                    use_type_invariant(&*source);
                    lemma_entries_index(source.value@, i as int);
                    assert(sm0.contains_key(key));
                }
                if equal_values(&source.value[i].1, &other.value[j].1) {
                    source.remove_at(i);
                    proof {
                        assert(missing_in_entries(sm0, oe.subrange(0, j + 1), pv) == prev);
                    }
                } else {
                    let mut child = source.take_at(i);
                    let ghost child0 = child;
                    match (&mut child, &other.value[j].1) {
                        (Supervalue::Mapping(cm), Supervalue::Mapping(ocm)) => {
                            proof {
                                assert(decreases_to!(*other => other.value));
                                assert(decreases_to!(other.value => other.value@));
                                assert(decreases_to!(other.value@ => other.value@[j as int]));
                                assert(decreases_to!(other.value@[j as int] => other.value@[j as int].1));
                                assert(decreases_to!(other.value@[j as int].1 => other.value@[j as int].1->Mapping_0));
                            }
                            recurse(errors, path, cm, ocm);
                            proof {
                                let sub = missing_paths(sm0[key], oe[j as int].1, pv.push(key));
                                assert(missing_in_entries(sm0, oe.subrange(0, j + 1), pv) == prev + sub);
                                assert forall|x: int|
                                    0 <= x < (prev + sub).len() implies #[trigger] errors@[e0.len() + x]@ == missing_line(
                                    (prev + sub)[x],
                                ) by {
                                    if x < prev.len() {
                                        assert(errors@[e0.len() + x] == errors_before[e0.len() + x]);
                                    } else {
                                        assert(errors@[errors_before.len() + (x - prev.len())]@ == missing_line(
                                            sub[x - prev.len()],
                                        ));
                                    }
                                }
                                assert forall|x: int| 0 <= x < e0.len() implies #[trigger] errors@[x] == e0[x] by {
                                    assert(errors@[x] == errors_before[x]);
                                }
                            }
                        },
                        _ => {
                            proof {
                                assert(missing_paths(sm0[key], oe[j as int].1, pv.push(key)) =~= Seq::empty());
                                assert(missing_in_entries(sm0, oe.subrange(0, j + 1), pv) =~= prev);
                            }
                        },
                    }
                    source.put_at(i, child);
                }
            },
            None => {
                let mut e = String::from_str("- Trying to subtract path [");
                e.append(debug_strings(path).as_str());
                e.append("] but no value exists at that path");
                errors.push(e);
                proof {
                    assert(!sm0.contains_key(key));
                    let now = missing_in_entries(sm0, oe.subrange(0, j + 1), pv);
                    assert(now == prev.push(pv.push(key)));
                    assert forall|x: int| 0 <= x < now.len() implies #[trigger] errors@[e0.len() + x]@ == missing_line(
                        now[x],
                    ) by {
                        if x < prev.len() {
                            assert(errors@[e0.len() + x] == errors_before[e0.len() + x]);
                        }
                    }
                    assert forall|x: int| 0 <= x < e0.len() implies #[trigger] errors@[x] == e0[x] by {
                        assert(errors@[x] == errors_before[x]);
                    }
                }
            },
        }
        path.pop();
        proof {
            assert(path@ =~= old(path)@);
            assert(source.contents() =~= Map::new(
                |kk: Seq<char>|
                    sm0.contains_key(kk) && !(has_key(oe.subrange(0, j + 1), kk) && om0.contains_key(kk)
                        && sm0[kk] == om0[kk]),
                |kk: Seq<char>|
                    if has_key(oe.subrange(0, j + 1), kk) && om0.contains_key(kk) && sm0[kk] is Mapping
                        && om0[kk] is Mapping {
                        subtracted(sm0[kk], om0[kk])
                    } else {
                        sm0[kk]
                    },
            ));
        }
        j = j + 1;
    }
    proof {
        assert(oe.subrange(0, oe.len() as int) =~= oe);
        assert forall|kk: Seq<char>| true implies (om0.contains_key(kk) <==> has_key(oe, kk)) by {
            lemma_entries_dom(oe, kk);
        }
        assert(source.contents() =~= subtracted(Tree::Mapping(source.kind(), sm0), Tree::Mapping(other.kind(), om0))->Mapping_1);
    }
    errors.len() > start
}

/// Subtracts `other` from `source`. Unless `missing_ok`, fails where `other` names a key
/// that `source` lacks, listing every such path, one line each (see `missing_line`).
pub fn subtract(source: &mut Supervalue, other: &Supervalue, missing_ok: bool) -> (r: Result<(), String>)
    ensures
        final(source)@ == subtract_result(old(source)@, other@),
        ({
            let mp = missing_paths(old(source)@, *other, Seq::empty());
            match r {
                Ok(()) => missing_ok || old(source)@ == other@ || mp.len() == 0,
                Err(e) => !missing_ok && old(source)@ != other@ && mp.len() > 0 && e@ == joined(missing_lines(mp)),
            }
        }),
{
    let ghost mp = missing_paths(source@, *other, Seq::empty());
    let mut layer_errors: Vec<String> = Vec::new();
    let mut missed = false;
    if equal_values(source, other) {
        *source = Supervalue::Null;
    } else {
        match (source, other) {
            (Supervalue::Mapping(sm), Supervalue::Mapping(om)) => {
                let mut path: Vec<String> = Vec::new();
                proof {
                    assert(strings_view(path@) =~= Seq::<Seq<char>>::empty());
                }
                missed = recurse(&mut layer_errors, &mut path, sm, om);
                proof {
                    assert forall|x: int| 0 <= x < mp.len() implies #[trigger] layer_errors@[x]@ == missing_line(mp[x]) by {
                        assert(layer_errors@[0 + x]@ == missing_line(mp[x]));
                    }
                }
            },
            (s, _) => {
                proof {
                    assert(mp =~= Seq::<Seq<Seq<char>>>::empty());
                }
            },
        }
    }
    if missed && !missing_ok {
        let ghost lines = missing_lines(mp);
        let mut out = String::new();
        let mut i: usize = 0;
        while i < layer_errors.len()
            invariant
                layer_errors@.len() == lines.len(),
                forall|x: int| 0 <= x < lines.len() ==> #[trigger] layer_errors@[x]@ == lines[x],
                i <= lines.len(),
                out@ == joined(lines.subrange(0, i as int)),
            decreases layer_errors@.len() - i,
        {
            if i > 0 {
                out.append("\n");
            }
            out.append(layer_errors[i].as_str());
            proof {
                assert(lines.subrange(0, i + 1).drop_last() =~= lines.subrange(0, i as int));
                if i == 0 {
                    assert(lines.subrange(0, 1) =~= seq![lines[0]]);
                }
            }
            i = i + 1;
        }
        proof {
            assert(lines.subrange(0, lines.len() as int) =~= lines);
        }
        return Err(out);
    }
    Ok(())
}

} // verus!
