use vstd::prelude::*;
use crate::supervalue::{
    equal_values, has_key, keys_unique, lemma_entries_dom, lemma_entries_index, lemma_entries_push, Supervalue,
    SupervalueMap, Tree,
};

verus! {

/// The part of map `s` that map `o` shares: a key of both stays where its two values are
/// equal, and where both are maps it stays with their common part; every other key goes.
/// The result keeps `s`'s map kind.
pub open spec fn common(s: Tree, o: Tree) -> Tree
    decreases o,
{
    match (s, o) {
        (Tree::Mapping(k, sm), Tree::Mapping(_, om)) => Tree::Mapping(
            k,
            Map::new(
                |key: Seq<char>|
                    sm.contains_key(key) && om.contains_key(key) && (sm[key] == om[key] || (
                    sm[key] is Mapping && om[key] is Mapping)),
                |key: Seq<char>|
                    if sm[key] == om[key] || !om.contains_key(key) {
                        sm[key]
                    } else {
                        common(sm[key], om[key])
                    },
            ),
        ),
        _ => Tree::Null,
    }
}

/// What intersecting `s` with `o` gives: `s` where the two are equal, their common part
/// where both are maps, and `Null` otherwise.
pub open spec fn intersected(s: Tree, o: Tree) -> Tree {
    if s == o {
        s
    } else if s is Mapping && o is Mapping {
        common(s, o)
    } else {
        Tree::Null
    }
}

fn recurse(source: &mut SupervalueMap, other: &SupervalueMap)
    ensures
        Supervalue::Mapping(*final(source))@ == common(Supervalue::Mapping(*old(source))@, Supervalue::Mapping(*other)@),
        final(source).kind() == old(source).kind(),
    decreases other,
{
    proof {
        use_type_invariant(&*source);
        use_type_invariant(other);
    }
    let ghost sm0 = source.contents();
    let ghost om0 = other.contents();
    let ghost target = common(Supervalue::Mapping(*source)@, Supervalue::Mapping(*other)@)->Mapping_1;
    let mut entries: Vec<(String, Supervalue)> = Vec::new();
    std::mem::swap(&mut entries, &mut source.value);
    let ghost orig = entries@;
    let mut kept: Vec<(String, Supervalue)> = Vec::new();
    let mut i: usize = 0;
    while i < entries.len()
        invariant
            keys_unique(orig),
            keys_unique(other.value@),
            sm0 == crate::supervalue::entries_tree(orig),
            om0 == other.contents(),
            target == common(Tree::Mapping(old(source).kind(), sm0), Tree::Mapping(other.kind(), om0))->Mapping_1,
            entries@.len() == orig.len(),
            i <= orig.len(),
            forall|j: int| i <= j < orig.len() ==> #[trigger] entries@[j] == orig[j],
            keys_unique(kept@),
            forall|a: int| 0 <= a < kept@.len() ==> has_key(orig.subrange(0, i as int), #[trigger] kept@[a].0@),
            crate::supervalue::entries_tree(kept@) == Map::new(
                |key: Seq<char>| target.contains_key(key) && has_key(orig.subrange(0, i as int), key),
                |key: Seq<char>| target[key],
            ),
            source.kind() == old(source).kind(),
        decreases orig.len() - i,
    {
        let ghost key = orig[i as int].0@;
        proof {
            lemma_entries_index(orig, i as int);
            assert forall|kk: Seq<char>| kk != key implies has_key(orig.subrange(0, i + 1), kk) == has_key(
                orig.subrange(0, i as int),
                kk,
            ) by {
                if has_key(orig.subrange(0, i + 1), kk) {
                    let j = choose|j: int| 0 <= j < i + 1 && #[trigger] orig.subrange(0, i + 1)[j].0@ == kk;
                    assert(orig.subrange(0, i as int)[j].0@ == kk);
                }
                if has_key(orig.subrange(0, i as int), kk) {
                    let j = choose|j: int| 0 <= j < i && #[trigger] orig.subrange(0, i as int)[j].0@ == kk;
                    assert(orig.subrange(0, i + 1)[j].0@ == kk);
                }
            }
            assert(has_key(orig.subrange(0, i + 1), key)) by {
                assert(orig.subrange(0, i + 1)[i as int].0@ == key);
            }
            assert(!has_key(orig.subrange(0, i as int), key)) by {
                if has_key(orig.subrange(0, i as int), key) {
                    let j = choose|j: int| 0 <= j < i && #[trigger] orig.subrange(0, i as int)[j].0@ == key;
                    assert(orig[j].0@ == orig[i as int].0@);
                }
            }
            assert(!has_key(kept@, key)) by {
                if has_key(kept@, key) {
                    let a = choose|a: int| 0 <= a < kept@.len() && #[trigger] kept@[a].0@ == key;
                    assert(has_key(orig.subrange(0, i as int), kept@[a].0@));
                }
            }
        }
        let ghost kept_before = kept@;
        match other.find(&entries[i].0) {
            None => {
                proof {
                    assert(!om0.contains_key(key));
                    assert(!target.contains_key(key));
                }
            },
            Some(j) => {
                proof {
                    lemma_entries_index(other.value@, j as int);
                }
                if equal_values(&entries[i].1, &other.value[j].1) {
                    let k = entries[i].0.clone();
                    let mut child = Supervalue::Null;
                    std::mem::swap(&mut child, &mut entries[i].1);
                    proof {
                        lemma_entries_push(kept@, k, child);
                    }
                    kept.push((k, child));
                } else {
                    let k = entries[i].0.clone();
                    let mut child = Supervalue::Null;
                    std::mem::swap(&mut child, &mut entries[i].1);
                    match (&mut child, &other.value[j].1) {
                        (Supervalue::Mapping(cm), Supervalue::Mapping(ocm)) => {
                            proof {
                                assert(decreases_to!(*other => other.value));
                                assert(decreases_to!(other.value => other.value@));
                                assert(decreases_to!(other.value@ => other.value@[j as int]));
                                assert(decreases_to!(other.value@[j as int] => other.value@[j as int].1));
                                assert(decreases_to!(other.value@[j as int].1 => other.value@[j as int].1->Mapping_0));
                            }
                            recurse(cm, ocm);
                            proof {
                                lemma_entries_push(kept@, k, child);
                            }
                            kept.push((k, child));
                        },
                        _ => {
                            proof {
                                assert(!target.contains_key(key));
                            }
                        },
                    }
                }
            },
        }
        proof {
            assert forall|a: int| 0 <= a < kept@.len() implies has_key(orig.subrange(0, i + 1), #[trigger] kept@[a].0@) by {
                if a < kept_before.len() {
                    assert(kept_before[a] == kept@[a]);
                    assert(has_key(orig.subrange(0, i as int), kept_before[a].0@));
                }
            }
            assert(crate::supervalue::entries_tree(kept@) =~= Map::new(
                |kk: Seq<char>| target.contains_key(kk) && has_key(orig.subrange(0, i + 1), kk),
                |kk: Seq<char>| target[kk],
            ));
        }
        i = i + 1;
    }
    proof {
        assert(orig.subrange(0, orig.len() as int) =~= orig);
        assert forall|kk: Seq<char>| true implies (sm0.contains_key(kk) <==> has_key(orig, kk)) by {
            lemma_entries_dom(orig, kk);
        }
        assert(crate::supervalue::entries_tree(kept@) =~= target);
    }
    std::mem::swap(&mut kept, &mut source.value);
}

/// Keeps only what `source` shares with `other`.
pub fn intersect(source: &mut Supervalue, other: &Supervalue)
    ensures
        final(source)@ == intersected(old(source)@, other@),
{
    if equal_values(source, other) {
        return;
    }
    match (source, other) {
        (Supervalue::Mapping(sm), Supervalue::Mapping(om)) => {
            recurse(sm, om);
        },
        (s, _) => {
            *s = Supervalue::Null;
        },
    }
}

} // verus!
