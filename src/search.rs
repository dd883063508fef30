use vstd::prelude::*;
use crate::supervalue::{
    equal_values, has_key, keys_unique, lemma_entries_dom, lemma_entries_index, lemma_entries_push, lemma_vec_tree,
    trees_of, entries_tree, Supervalue, SupervalueMap, SupervalueMapType, SupervalueVec, Tree,
};

verus! {

/// What a search does with each match: put a copy of a value in its place, or delete it.
#[derive(Debug)]
pub enum SearchRes {
    Replace(Supervalue),
    Delete,
}

/// The replacement that an action puts in place, if any.
pub open spec fn replacement(action: SearchRes) -> Option<Tree> {
    match action {
        SearchRes::Replace(v) => Some(v@),
        SearchRes::Delete => None,
    }
}

/// The needle is a string equal to `key`, and the action can act on a key: deleting it,
/// or renaming it to a string.
pub open spec fn key_hit(key: Seq<char>, needle: Tree, rep: Option<Tree>) -> bool {
    needle is Text && needle->Text_0 == key && match rep {
        None => true,
        Some(d) => d is Text,
    }
}

/// The key step of a map: the entry whose key equals a string needle (and whose value
/// did not match) is deleted, or renamed, its value left as it was; a renamed entry takes
/// the place of any entry under its new key.
pub open spec fn key_searched(
    base: Map<Seq<char>, Tree>,
    m: Map<Seq<char>, Tree>,
    needle: Tree,
    rep: Option<Tree>,
) -> Map<Seq<char>, Tree> {
    if needle is Text && m.contains_key(needle->Text_0) && m[needle->Text_0] != needle && key_hit(
        needle->Text_0,
        needle,
        rep,
    ) {
        let s = needle->Text_0;
        match rep {
            None => base.remove(s),
            Some(d) => base.remove(s).insert(d->Text_0, base[s]),
        }
    } else {
        base
    }
}

/// The document after one pass of search: at the root (where `root` is set) a document
/// equal to the needle is replaced whole (deletion leaves `Null`); below it, matching
/// sequence elements and map values are replaced or deleted, a map entry whose key
/// equals a string needle is deleted or renamed, and only what did not match is searched
/// in turn. Replacements are not searched again.
pub open spec fn searched(t: Tree, needle: Tree, rep: Option<Tree>, root: bool) -> Tree
    decreases t, 1int,
{
    if root && t == needle {
        match rep {
            Some(d) => d,
            None => Tree::Null,
        }
    } else {
        match t {
            Tree::Sequence(k, s) => Tree::Sequence(k, seq_searched(s, needle, rep)),
            Tree::Mapping(k, m) => Tree::Mapping(
                k,
                key_searched(
                    Map::new(
                        |key: Seq<char>| m.contains_key(key) && !(m[key] == needle && rep is None),
                        |key: Seq<char>|
                            if !m.contains_key(key) {
                                Tree::Null
                            } else if m[key] == needle {
                                rep->0
                            } else if key_hit(key, needle, rep) {
                                m[key]
                            } else {
                                searched(m[key], needle, rep, false)
                            },
                    ),
                    m,
                    needle,
                    rep,
                ),
            ),
            _ => t,
        }
    }
}

/// The elements of a sequence after search: matches replaced or dropped, the others
/// searched in turn.
pub open spec fn seq_searched(s: Seq<Tree>, needle: Tree, rep: Option<Tree>) -> Seq<Tree>
    decreases s, 0int,
{
    if s.len() == 0 {
        Seq::empty()
    } else {
        let prev = seq_searched(s.drop_last(), needle, rep);
        if s.last() == needle {
            match rep {
                Some(d) => prev.push(d),
                None => prev,
            }
        } else {
            prev.push(searched(s.last(), needle, rep, false))
        }
    }
}

/// How many replacements or deletions one pass of search makes in `v`.
pub open(crate) spec fn match_count(v: Supervalue, needle: Tree, rep: Option<Tree>, root: bool) -> nat
    decreases v, 1int,
{
    if root && v@ == needle {
        1
    } else {
        match v {
            Supervalue::Vec(sv) => elements_count(sv.value@, needle, rep),
            Supervalue::Mapping(m) => entries_count(m.value@, needle, rep),
            _ => 0,
        }
    }
}

/// The matches among a list of elements and below them.
pub open spec fn elements_count(s: Seq<Supervalue>, needle: Tree, rep: Option<Tree>) -> nat
    decreases s, 0int,
{
    if s.len() == 0 {
        0
    } else {
        elements_count(s.drop_last(), needle, rep) + if s.last()@ == needle {
            1
        } else {
            match_count(s.last(), needle, rep, false)
        }
    }
}

/// The matches among a list of map entries (a value or a key match counts once, and
/// nothing inside a match is counted) and below the entries that did not match.
pub open spec fn entries_count(s: Seq<(String, Supervalue)>, needle: Tree, rep: Option<Tree>) -> nat
    decreases s, 0int,
{
    if s.len() == 0 {
        0
    } else {
        entries_count(s.drop_last(), needle, rep) + if s.last().1@ == needle {
            1
        } else {
            if key_hit(s.last().0@, needle, rep) {
                1nat
            } else {
                match_count(s.last().1, needle, rep, false)
            }
        }
    }
}

/// The map's entries after the value step (before the key step): a matching value is
/// replaced or its entry dropped, an entry whose key matches is left for the key step,
/// and every other value is searched in turn.
pub open spec fn values_searched(m: Map<Seq<char>, Tree>, needle: Tree, rep: Option<Tree>) -> Map<Seq<char>, Tree> {
    Map::new(
        |key: Seq<char>| m.contains_key(key) && !(m[key] == needle && rep is None),
        |key: Seq<char>|
            if !m.contains_key(key) {
                Tree::Null
            } else if m[key] == needle {
                rep->0
            } else if key_hit(key, needle, rep) {
                m[key]
            } else {
                searched(m[key], needle, rep, false)
            },
    )
}

/// Which keys the value step keeps, and what they hold.
pub proof fn lemma_values_searched(m: Map<Seq<char>, Tree>, needle: Tree, rep: Option<Tree>, key: Seq<char>)
    ensures
        values_searched(m, needle, rep).contains_key(key) <==> (m.contains_key(key) && !(m[key] == needle
            && rep is None)),
        values_searched(m, needle, rep).contains_key(key) && m[key] != needle && !key_hit(key, needle, rep)
            ==> values_searched(m, needle, rep)[key] == searched(m[key], needle, rep, false),
{
}

/// Search inside a map is the value step followed by the key step.
pub proof fn lemma_searched_mapping(k: SupervalueMapType, m: Map<Seq<char>, Tree>, needle: Tree, rep: Option<Tree>, root: bool)
    requires
        !(root && Tree::Mapping(k, m) == needle),
    ensures
        searched(Tree::Mapping(k, m), needle, rep, root) == Tree::Mapping(
            k,
            key_searched(values_searched(m, needle, rep), m, needle, rep),
        ),
{
    let t = searched(Tree::Mapping(k, m), needle, rep, root);
    assert(t->Mapping_1 =~= key_searched(values_searched(m, needle, rep), m, needle, rep));
}

/// `n`, or `usize::MAX` where it does not fit.
pub open spec fn clamp(n: nat) -> usize {
    if n >= usize::MAX {
        usize::MAX
    } else {
        n as usize
    }
}

fn add_clamped(a: usize, b: usize, Ghost(x): Ghost<nat>, Ghost(y): Ghost<nat>) -> (r: usize)
    requires
        a == clamp(x),
        b == clamp(y),
    ensures
        r == clamp(x + y),
{
    if a > usize::MAX - b {
        usize::MAX
    } else {
        a + b
    }
}

fn key_hit_exec(key: &String, needle: &Supervalue, action: &SearchRes) -> (r: bool)
    ensures
        r == key_hit(key@, needle@, replacement(*action)),
{
    match needle {
        Supervalue::String(s) => {
            if *s != *key {
                return false;
            }
            match action {
                SearchRes::Delete => true,
                SearchRes::Replace(d) => match d {
                    Supervalue::String(_) => true,
                    _ => false,
                },
            }
        },
        _ => false,
    }
}

fn search_value(v: Supervalue, needle: &Supervalue, action: &SearchRes, root: bool) -> (r: (Supervalue, usize))
    ensures
        r.0@ == searched(v@, needle@, replacement(*action), root),
        r.1 == clamp(match_count(v, needle@, replacement(*action), root)),
    decreases v,
{
    let ghost v0 = v;
    let ghost rep = replacement(*action);
    let ghost nd = needle@;
    if root && equal_values(&v, needle) {
        let out = match action {
            SearchRes::Replace(d) => d.clone_value(),
            SearchRes::Delete => Supervalue::Null,
        };
        return (out, 1);
    }
    match v {
        Supervalue::Vec(sv) => {
            proof {
                lemma_vec_tree(sv);
            }
            let ghost orig = sv.value@;
            let kind = sv.type_;
            let mut items = sv.value;
            let mut out: Vec<Supervalue> = Vec::new();
            let mut count: usize = 0;
            let mut i: usize = 0;
            proof {
                assert(trees_of(orig.subrange(0, 0)) =~= Seq::<Tree>::empty());
                assert(orig.subrange(0, 0) =~= Seq::<Supervalue>::empty());
            }
            while i < items.len()
                invariant
                    v == v0,
                    v0 == Supervalue::Vec(sv),
                    orig == sv.value@,
                    rep == replacement(*action),
                    nd == needle@,
                    items@.len() == orig.len(),
                    i <= orig.len(),
                    forall|j: int| i <= j < orig.len() ==> #[trigger] items@[j] == orig[j],
                    trees_of(out@) == seq_searched(trees_of(orig.subrange(0, i as int)), nd, rep),
                    count == clamp(elements_count(orig.subrange(0, i as int), nd, rep)),
                decreases orig.len() - i,
            {
                let mut x = Supervalue::Null;
                std::mem::swap(&mut x, &mut items[i]);
                let ghost pre = orig.subrange(0, i as int);
                let ghost out_before = out@;
                proof {
                    assert(orig.subrange(0, i + 1).drop_last() =~= pre);
                    assert(trees_of(orig.subrange(0, i + 1)).drop_last() =~= trees_of(pre));
                    assert(x == orig[i as int]);
                    assert(decreases_to!(v0 => v0->Vec_0));
                    assert(decreases_to!(sv => sv.value));
                    assert(decreases_to!(sv.value => sv.value@));
                    assert(decreases_to!(sv.value@ => sv.value@[i as int]));
                }
                if equal_values(&x, needle) {
                    match action {
                        SearchRes::Replace(d) => {
                            out.push(d.clone_value());
                        },
                        SearchRes::Delete => {},
                    }
                    count = add_clamped(count, 1, Ghost(elements_count(pre, nd, rep)), Ghost(1));
                } else {
                    let (y, c) = search_value(x, needle, action, false);
                    out.push(y);
                    count = add_clamped(count, c, Ghost(elements_count(pre, nd, rep)), Ghost(match_count(orig[i as int], nd, rep, false)));
                }
                proof {
                    assert(trees_of(out@) =~= seq_searched(trees_of(orig.subrange(0, i + 1)), nd, rep));
                }
                i = i + 1;
            }
            let r = SupervalueVec { type_: kind, value: out };
            proof {
                lemma_vec_tree(r);
                assert(orig.subrange(0, orig.len() as int) =~= orig);
            }
            (Supervalue::Vec(r), count)
        },
        Supervalue::Mapping(m) => {
            proof {
                use_type_invariant(&m);
            }
            let ghost orig = m.value@;
            let ghost mt = m.contents();
            let ghost base = Map::new(
                |key: Seq<char>| mt.contains_key(key) && !(mt[key] == nd && rep is None),
                |key: Seq<char>|
                    if !mt.contains_key(key) {
                        Tree::Null
                    } else if mt[key] == nd {
                        rep->0
                    } else if key_hit(key, nd, rep) {
                        mt[key]
                    } else {
                        searched(mt[key], nd, rep, false)
                    },
            );
            let kind = m.type_;
            let mut entries = m.value;
            let mut kept: Vec<(String, Supervalue)> = Vec::new();
            let mut count: usize = 0;
            let mut hit = false;
            let mut i: usize = 0;
            proof {
                assert(orig.subrange(0, 0) =~= Seq::<(String, Supervalue)>::empty());
                assert(entries_tree(kept@) =~= Map::new(
                    |key: Seq<char>| base.contains_key(key) && has_key(orig.subrange(0, 0), key),
                    |key: Seq<char>| base[key],
                ));
            }
            while i < entries.len()
                invariant
                    v == v0,
                    v0 == Supervalue::Mapping(m),
                    orig == m.value@,
                    mt == entries_tree(orig),
                    base == Map::new(
                        |key: Seq<char>| mt.contains_key(key) && !(mt[key] == nd && rep is None),
                        |key: Seq<char>|
                            if !mt.contains_key(key) {
                                Tree::Null
                            } else if mt[key] == nd {
                                rep->0
                            } else if key_hit(key, nd, rep) {
                                mt[key]
                            } else {
                                searched(mt[key], nd, rep, false)
                            },
                    ),
                    !(root && v0@ == nd),
                    keys_unique(orig),
                    rep == replacement(*action),
                    nd == needle@,
                    entries@.len() == orig.len(),
                    i <= orig.len(),
                    forall|j: int| i <= j < orig.len() ==> #[trigger] entries@[j] == orig[j],
                    keys_unique(kept@),
                    forall|a: int| 0 <= a < kept@.len() ==> has_key(orig.subrange(0, i as int), #[trigger] kept@[a].0@),
                    entries_tree(kept@) == Map::new(
                        |key: Seq<char>| base.contains_key(key) && has_key(orig.subrange(0, i as int), key),
                        |key: Seq<char>| base[key],
                    ),
                    count == clamp(entries_count(orig.subrange(0, i as int), nd, rep)),
                    hit == (nd is Text && has_key(orig.subrange(0, i as int), nd->Text_0) && mt.contains_key(nd->Text_0) && mt[nd->Text_0] != nd
                        && key_hit(nd->Text_0, nd, rep)),
                decreases orig.len() - i,
            {
                let ghost key = orig[i as int].0@;
                let ghost pre = orig.subrange(0, i as int);
                let ghost kept_before = kept@;
                proof {
                    lemma_entries_index(orig, i as int);
                    assert(orig.subrange(0, i + 1).drop_last() =~= pre);
                    assert forall|kk: Seq<char>| kk != key implies has_key(orig.subrange(0, i + 1), kk) == has_key(pre, kk) by {
                        if has_key(orig.subrange(0, i + 1), kk) {
                            let j = choose|j: int| 0 <= j < i + 1 && #[trigger] orig.subrange(0, i + 1)[j].0@ == kk;
                            assert(pre[j].0@ == kk);
                        }
                        if has_key(pre, kk) {
                            let j = choose|j: int| 0 <= j < i && #[trigger] pre[j].0@ == kk;
                            assert(orig.subrange(0, i + 1)[j].0@ == kk);
                        }
                    }
                    assert(has_key(orig.subrange(0, i + 1), key)) by {
                        assert(orig.subrange(0, i + 1)[i as int].0@ == key);
                    }
                    assert(!has_key(pre, key)) by {
                        if has_key(pre, key) {
                            let j = choose|j: int| 0 <= j < i && #[trigger] pre[j].0@ == key;
                            assert(orig[j].0@ == orig[i as int].0@);
                        }
                    }
                    assert(!has_key(kept@, key)) by {
                        if has_key(kept@, key) {
                            let a = choose|a: int| 0 <= a < kept@.len() && #[trigger] kept@[a].0@ == key;
                            assert(has_key(pre, kept@[a].0@));
                        }
                    }
                    assert(decreases_to!(v0 => v0->Mapping_0));
                    assert(decreases_to!(m => m.value));
                    assert(decreases_to!(m.value => m.value@));
                    assert(decreases_to!(m.value@ => m.value@[i as int]));
                    assert(decreases_to!(m.value@[i as int] => m.value@[i as int].1));
                }
                let mut x = Supervalue::Null;
                std::mem::swap(&mut x, &mut entries[i].1);
                let k = entries[i].0.clone();
                proof {
                    assert(x == orig[i as int].1);
                    assert(k@ == key);
                }
                if equal_values(&x, needle) {
                    match action {
                        SearchRes::Replace(d) => {
                            let dv = d.clone_value();
                            proof {
                                lemma_entries_push(kept@, k, dv);
                                assert(mt[key] == nd);
                                assert(base.contains_key(key) && base[key] == dv@);
                            }
                            kept.push((k, dv));
                        },
                        SearchRes::Delete => {
                            proof {
                                assert(!base.contains_key(key));
                            }
                        },
                    }
                    count = add_clamped(count, 1, Ghost(entries_count(pre, nd, rep)), Ghost(1));
                } else {
                    if key_hit_exec(&k, needle, action) {
                        proof {
                            lemma_entries_push(kept@, k, x);
                            assert(mt[key] != nd);
                            assert(base.contains_key(key) && base[key] == x@);
                        }
                        kept.push((k, x));
                        hit = true;
                        count = add_clamped(count, 1, Ghost(entries_count(pre, nd, rep)), Ghost(1));
                    } else {
                        let (y, c) = search_value(x, needle, action, false);
                        proof {
                            lemma_entries_push(kept@, k, y);
                            assert(mt[key] != nd);
                            assert(base.contains_key(key) && base[key] == y@);
                        }
                        kept.push((k, y));
                        count = add_clamped(count, c, Ghost(entries_count(pre, nd, rep)), Ghost(match_count(orig[i as int].1, nd, rep, false)));
                    }
                }
                proof {
                    assert forall|a: int| 0 <= a < kept@.len() implies has_key(orig.subrange(0, i + 1), #[trigger] kept@[a].0@) by {
                        if a < kept_before.len() {
                            assert(kept_before[a] == kept@[a]);
                            assert(has_key(pre, kept_before[a].0@));
                        }
                    }
                    assert(entries_tree(kept@) =~= Map::new(
                        |kk: Seq<char>| base.contains_key(kk) && has_key(orig.subrange(0, i + 1), kk),
                        |kk: Seq<char>| base[kk],
                    ));
                }
                i = i + 1;
            }
            proof {
                assert(orig.subrange(0, orig.len() as int) =~= orig);
                assert forall|kk: Seq<char>| true implies (mt.contains_key(kk) <==> has_key(orig, kk)) by {
                    lemma_entries_dom(orig, kk);
                }
                assert(entries_tree(kept@) =~= base);
            }
            let mut nm = SupervalueMap { type_: kind, value: kept };
            proof {
                assert(v0@ == Tree::Mapping(kind, mt));
                let t = searched(v0@, nd, rep, root);
                assert(t is Mapping && t->Mapping_0 == kind);
                assert(t->Mapping_1 =~= key_searched(base, mt, nd, rep));
                if hit {
                    assert(base.contains_key(nd->Text_0));
                }
            }
            if hit {
                match needle {
                    Supervalue::String(s) => {
                        match action {
                            SearchRes::Delete => {
                                nm.remove(s);
                            },
                            SearchRes::Replace(d) => {
                                match d {
                                    Supervalue::String(dk) => {
                                        match nm.remove(s) {
                                            Some(val) => {
                                                nm.insert(dk.clone(), val);
                                            },
                                            None => {},
                                        }
                                    },
                                    _ => {},
                                }
                            },
                        }
                    },
                    _ => {},
                }
            }
            (Supervalue::Mapping(nm), count)
        },
        other => (other, 0),
    }
}

/// One pass of search over `at` for nodes equal to `needle`, doing `action` to each
/// (see `searched`). Hands back how many replacements or deletions it made.
pub fn search(root: bool, at: &mut Supervalue, needle: &Supervalue, action: &SearchRes) -> (r: usize)
    ensures
        final(at)@ == searched(old(at)@, needle@, replacement(*action), root),
        r == clamp(match_count(*old(at), needle@, replacement(*action), root)),
{
    let mut v = Supervalue::Null;
    std::mem::swap(&mut v, at);
    let (w, n) = search_value(v, needle, action, root);
    *at = w;
    n
}

} // verus!
