use vstd::prelude::*;
use crate::supervalue::{Supervalue, Tree, has_key, keys_unique, lemma_entries_dom, lemma_entries_index};

verus! {

/// Deep merge: where both are maps, each key of `o` is merged into `d` (recursing where
/// `d` has the key too), keeping `d`'s map kind; otherwise `o` replaces `d` whole.
pub open spec fn merged(d: Tree, o: Tree) -> Tree
    decreases o,
{
    match (d, o) {
        (Tree::Mapping(k, dm), Tree::Mapping(_, om)) => Tree::Mapping(
            k,
            Map::new(
                |key: Seq<char>| dm.contains_key(key) || om.contains_key(key),
                |key: Seq<char>|
                    if om.contains_key(key) {
                        if dm.contains_key(key) {
                            merged(dm[key], om[key])
                        } else {
                            om[key]
                        }
                    } else {
                        dm[key]
                    },
            ),
        ),
        _ => o,
    }
}

/// The map of `dm` with the keys of `om` that `done` selects merged in.
pub open spec fn merged_part(
    dm: Map<Seq<char>, Tree>,
    om: Map<Seq<char>, Tree>,
    done: spec_fn(Seq<char>) -> bool,
) -> Map<Seq<char>, Tree> {
    Map::new(
        |key: Seq<char>| dm.contains_key(key) || (om.contains_key(key) && done(key)),
        |key: Seq<char>|
            if om.contains_key(key) && done(key) {
                if dm.contains_key(key) {
                    merged(dm[key], om[key])
                } else {
                    om[key]
                }
            } else {
                dm[key]
            },
    )
}

/// Merges `other` into `dest`: maps are combined key by key, recursively; anything else
/// in `other` replaces `dest`.
pub fn merge(dest: &mut Supervalue, other: Supervalue)
    ensures
        final(dest)@ == merged(old(dest)@, other@),
    decreases other,
{
    let ghost other0 = other;
    match dest {
        Supervalue::Mapping(dm) => {
            match other {
                Supervalue::Mapping(om) => {
                    proof {
                        use_type_invariant(&om);
                    }
                    let ghost dm0 = dm.contents();
                    let ghost om0 = om.contents();
                    let ghost oe = om.value@;
                    proof {
                        assert forall|key: Seq<char>| true implies (om0.contains_key(key) <==> has_key(oe, key)) by {
                            lemma_entries_dom(oe, key);
                        }
                        assert(dm.contents() =~= merged_part(dm0, om0, |key: Seq<char>| !has_key(oe, key)));
                        assert(oe.subrange(0, oe.len() as int) =~= oe);
                    }
                    let mut entries = om.value;
                    while entries.len() > 0
                        invariant
                            other0 == Supervalue::Mapping(om),
                            other == other0,
                            oe == om.value@,
                            om0 == om.contents(),
                            keys_unique(oe),
                            entries@.len() <= oe.len(),
                            entries@ == oe.subrange(0, entries@.len() as int),
                            dm.kind() == old(dest)->Mapping_0.kind(),
                            dm0 == old(dest)->Mapping_0.contents(),
                            dm.contents() == merged_part(dm0, om0, |key: Seq<char>| !has_key(entries@, key)),
                        decreases entries@.len(),
                    {
                        let ghost n = entries@.len() - 1;
                        let ghost before = entries@;
                        let (k, v) = entries.pop().unwrap();
                        proof {
                            assert(oe[n] == (k, v));
                            lemma_entries_index(oe, n);
                            assert(decreases_to!(other0 => other0->Mapping_0));
                            assert(decreases_to!(om => om.value));
                            assert(decreases_to!(om.value => om.value@));
                            assert(decreases_to!(om.value@ => om.value@[n]));
                            assert(decreases_to!(om.value@[n] => om.value@[n].1));
                            assert(v == om.value@[n].1);
                            assert(decreases_to!(other0 => v));
                            assert(!has_key(entries@, k@)) by {
                                if has_key(entries@, k@) {
                                    let j = choose|j: int| 0 <= j < entries@.len() && #[trigger] entries@[j].0@ == k@;
                                    assert(oe[j].0@ == oe[n].0@);
                                }
                            }
                            assert forall|key: Seq<char>| key != k@ implies has_key(entries@, key) == has_key(before, key) by {
                                if has_key(before, key) {
                                    let j = choose|j: int| 0 <= j < before.len() && #[trigger] before[j].0@ == key;
                                    assert(entries@[j].0@ == key);
                                }
                                if has_key(entries@, key) {
                                    let j = choose|j: int| 0 <= j < entries@.len() && #[trigger] entries@[j].0@ == key;
                                    assert(before[j].0@ == key);
                                }
                            }
                            assert(has_key(before, k@)) by {
                                assert(before[n].0@ == k@);
                            }
                        }
                        match dm.find(&k) {
                            Some(i) => {
                                let mut child = dm.take_at(i);
                                merge(&mut child, v);
                                dm.put_at(i, child);
                            },
                            None => {
                                dm.insert(k, v);
                            },
                        }
                        proof {
                            assert(dm.contents() =~= merged_part(dm0, om0, |key: Seq<char>| !has_key(entries@, key)));
                        }
                    }
                    proof {
                        assert(dm.contents() =~= merged(old(dest)@, other0@)->Mapping_1);
                    }
                },
                _ => {
                    *dest = other;
                },
            }
        },
        _ => {
            *dest = other;
        },
    }
}

} // verus!
