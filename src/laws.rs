use vstd::prelude::*;
use crate::get::get_policy;
use crate::merge::merged;
use crate::set::set_policy;
use crate::subtract::subtract_result;
use crate::intersect::{common, intersected};
use crate::search::{elements_count, entries_count, key_hit, key_searched, lemma_searched_mapping, lemma_values_searched, match_count, searched, seq_searched, values_searched};
use crate::supervalue::{
    entries_tree, lemma_entries_index, trees_of, wf_value, Supervalue, SupervalueMapType, SupervalueVecType, Tree,
};
use crate::utils::{walk, walk_in, is_container, Walked};

verus! {

/// Reading a path right after a successful write to it gives back the value written,
/// whatever `missing_ok` each call had. (A write through a scalar succeeds only where it
/// may create maps, and then the read goes through the maps it created.)
pub proof fn law_set_then_get(t: Tree, p: Seq<Seq<char>>, v: Tree, set_missing_ok: bool, get_missing_ok: bool)
    requires
        walk(t, p, set_policy(set_missing_ok), v).1 is Done,
    ensures
        walk(walk(t, p, set_policy(set_missing_ok), v).0, p, get_policy(get_missing_ok), Tree::Null).1
            == Walked::Done(Some(v)),
    decreases p.len(), 1int,
{
    if p.len() > 0 {
        if is_container(t) {
            lemma_set_then_get_in(t, p, v, set_missing_ok, get_missing_ok);
        } else {
            lemma_set_then_get_in(Tree::empty_map(), p, v, set_missing_ok, get_missing_ok);
        }
    }
}

proof fn lemma_set_then_get_in(t: Tree, p: Seq<Seq<char>>, v: Tree, set_missing_ok: bool, get_missing_ok: bool)
    requires
        p.len() > 0,
        is_container(t),
        walk_in(t, p, set_policy(set_missing_ok), v).1 is Done,
    ensures
        is_container(walk_in(t, p, set_policy(set_missing_ok), v).0),
        walk(walk_in(t, p, set_policy(set_missing_ok), v).0, p, get_policy(get_missing_ok), Tree::Null).1
            == Walked::Done(Some(v)),
    decreases p.len(), 0int,
{
    let sp = set_policy(set_missing_ok);
    let gp = get_policy(get_missing_ok);
    let seg = p[0];
    let rest = p.drop_first();
    let t2 = walk_in(t, p, sp, v).0;
    match t {
        Tree::Mapping(k, m) => {
            if p.len() == 1 {
                assert(t2->Mapping_1.contains_key(seg));
                assert(walk_in(t2, p, gp, Tree::Null).1 == Walked::Done(Some(v)));
            } else {
                let child = if m.contains_key(seg) { m[seg] } else { Tree::empty_map() };
                law_set_then_get(child, rest, v, set_missing_ok, get_missing_ok);
                let c = walk(child, rest, sp, v).0;
                assert(t2 == Tree::Mapping(k, m.insert(seg, c)));
                assert(t2->Mapping_1[seg] == c);
                assert(walk_in(t2, p, gp, Tree::Null).1 == walk(c, rest, gp, Tree::Null).1);
            }
        },
        Tree::Sequence(k, s) => {
            let i = crate::supervalue_path::segment_index(seg)->0;
            if p.len() == 1 {
                assert(walk_in(t2, p, gp, Tree::Null).1 == Walked::Done(Some(v)));
            } else {
                law_set_then_get(s[i as int], rest, v, set_missing_ok, get_missing_ok);
                let c = walk(s[i as int], rest, sp, v).0;
                assert(t2 == Tree::Sequence(k, s.update(i as int, c)));
                assert(walk_in(t2, p, gp, Tree::Null).1 == walk(c, rest, gp, Tree::Null).1);
            }
        },
        _ => {},
    }
}

/// Merging an empty map into a map leaves the map as it was. (Into anything else the
/// empty map is merged by replacing it: `Null` becomes `{}`.)
pub proof fn law_merge_empty_into_map(t: Tree)
    requires
        t is Mapping,
    ensures
        merged(t, Tree::empty_map()) == t,
{
    assert(merged(t, Tree::empty_map())->Mapping_1 =~= t->Mapping_1);
}

/// Merging a document into an empty map gives that document. (A merged map takes the
/// kind of the map merged into, so a YAML-tag map comes out as an ordinary one.)
pub proof fn law_merge_into_empty_map(t: Tree)
    requires
        !(t is Mapping && t->Mapping_0 == SupervalueMapType::YamlTag),
    ensures
        merged(Tree::empty_map(), t) == t,
{
    if t is Mapping {
        assert(merged(Tree::empty_map(), t)->Mapping_1 =~= t->Mapping_1);
    }
}

/// Subtracting a document from an equal one leaves `Null` (and `subtract` fails only on
/// unequal documents).
pub proof fn law_subtract_equal(a: Tree, b: Tree)
    requires
        a == b,
    ensures
        subtract_result(a, b) == Tree::Null,
{
}

/// The document with every map and sequence kind made ordinary.
pub open spec fn forget_kinds(t: Tree) -> Tree
    decreases t,
{
    match t {
        Tree::Mapping(_, m) => Tree::Mapping(
            SupervalueMapType::Normal,
            Map::new(
                |k: Seq<char>| m.contains_key(k),
                |k: Seq<char>|
                    if m.contains_key(k) {
                        forget_kinds(m[k])
                    } else {
                        Tree::Null
                    },
            ),
        ),
        Tree::Sequence(_, s) => Tree::Sequence(
            SupervalueVecType::Normal,
            Seq::new(
                s.len(),
                |i: int|
                    if 0 <= i < s.len() {
                        forget_kinds(s[i])
                    } else {
                        Tree::Null
                    },
            ),
        ),
        _ => t,
    }
}

/// Intersection commutes up to map kinds: `intersect(a, b)` and `intersect(b, a)` keep the
/// same keys with the same values at every depth, and a scalar against a map gives `Null`
/// in either order; only the kind of a map that both sides hold, unequal, may differ,
/// since the result takes the first one's.
pub proof fn law_intersect_commutes(a: Tree, b: Tree)
    ensures
        forget_kinds(intersected(a, b)) == forget_kinds(intersected(b, a)),
{
    if a != b && a is Mapping && b is Mapping {
        lemma_common_commutes(a, b);
    }
}

proof fn lemma_common_commutes(a: Tree, b: Tree)
    requires
        a is Mapping,
        b is Mapping,
    ensures
        forget_kinds(common(a, b)) == forget_kinds(common(b, a)),
    decreases a,
{
    let am = a->Mapping_1;
    let bm = b->Mapping_1;
    let x = common(a, b)->Mapping_1;
    let y = common(b, a)->Mapping_1;
    assert forall|k: Seq<char>| x.contains_key(k) implies forget_kinds(x[k]) == forget_kinds(y[k]) by {
        assert(y.contains_key(k));
        if am[k] != bm[k] {
            lemma_common_commutes(am[k], bm[k]);
        }
    }
    assert(forget_kinds(common(a, b))->Mapping_1 =~= forget_kinds(common(b, a))->Mapping_1);
}

/// Some node below the root equals the needle, or some map key is one that a deleting
/// search would act on.
pub open spec fn occurs_in(t: Tree, needle: Tree) -> bool
    decreases t,
{
    match t {
        Tree::Sequence(_, s) => exists|i: int|
            0 <= i < s.len() && ((#[trigger] s[i]) == needle || occurs_in(s[i], needle)),
        Tree::Mapping(_, m) => exists|k: Seq<char>|
            #[trigger] m.contains_key(k) && (m[k] == needle || occurs_in(m[k], needle) || key_hit(k, needle, None)),
        _ => false,
    }
}

proof fn lemma_absent_unchanged(t: Tree, needle: Tree, rep: Option<Tree>)
    requires
        !occurs_in(t, needle),
    ensures
        searched(t, needle, rep, false) == t,
    decreases t, 1int,
{
    match t {
        Tree::Sequence(k, s) => {
            assert(s =~= s.subrange(0, s.len() as int));
            lemma_absent_seq_unchanged(t, s, needle, rep);
        },
        Tree::Mapping(k, m) => {
            let r = searched(t, needle, rep, false)->Mapping_1;
            assert forall|key: Seq<char>| #[trigger] m.contains_key(key) implies m[key] != needle && searched(m[key], needle, rep, false) == m[key] && !key_hit(key, needle, rep) by {
                lemma_absent_unchanged(m[key], needle, rep);
            }
            assert(r =~= m);
        },
        _ => {},
    }
}

proof fn lemma_absent_seq_unchanged(t: Tree, s: Seq<Tree>, needle: Tree, rep: Option<Tree>)
    requires
        t is Sequence,
        s.len() <= t->Sequence_1.len(),
        s == t->Sequence_1.subrange(0, s.len() as int),
        !occurs_in(t, needle),
    ensures
        seq_searched(s, needle, rep) == s,
    decreases t, 0int, s.len(),
{
    if s.len() > 0 {
        let full = t->Sequence_1;
        let n = s.len() - 1;
        assert(s.drop_last() =~= full.subrange(0, n));
        lemma_absent_seq_unchanged(t, s.drop_last(), needle, rep);
        assert(s.last() == full[n]);
        assert(!(full[n] == needle || occurs_in(full[n], needle)));
        lemma_absent_unchanged(full[n], needle, rep);
        assert(s.drop_last().push(s.last()) =~= s);
    }
}

proof fn lemma_absent_count(v: Supervalue, needle: Tree, rep: Option<Tree>)
    requires
        wf_value(v),
        !occurs_in(v@, needle),
    ensures
        match_count(v, needle, rep, false) == 0,
    decreases v, 1int,
{
    match v {
        Supervalue::Vec(sv) => {
            crate::supervalue::lemma_vec_tree(sv);
            assert(sv.value@ =~= sv.value@.subrange(0, sv.value@.len() as int));
            lemma_absent_elements_count(v, sv.value@, needle, rep);
        },
        Supervalue::Mapping(m) => {
            assert(m.value@ =~= m.value@.subrange(0, m.value@.len() as int));
            lemma_absent_entries_count(v, m.value@, needle, rep);
        },
        _ => {},
    }
}

proof fn lemma_absent_elements_count(v: Supervalue, s: Seq<Supervalue>, needle: Tree, rep: Option<Tree>)
    requires
        v is Vec,
        wf_value(v),
        !occurs_in(v@, needle),
        s.len() <= v->Vec_0.value@.len(),
        s == v->Vec_0.value@.subrange(0, s.len() as int),
    ensures
        elements_count(s, needle, rep) == 0,
    decreases v, 0int, s.len(),
{
    if s.len() > 0 {
        let full = v->Vec_0.value@;
        let n = s.len() - 1;
        assert(s.drop_last() =~= full.subrange(0, n));
        lemma_absent_elements_count(v, s.drop_last(), needle, rep);
        crate::supervalue::lemma_vec_tree(v->Vec_0);
        assert(v == Supervalue::Vec(v->Vec_0));
        assert(v@ == Tree::Sequence(v->Vec_0.type_, trees_of(full)));
        assert(trees_of(full)[n] == full[n]@);
        assert(!occurs_in(Tree::Sequence(v->Vec_0.type_, trees_of(full)), needle));
        let tt = Tree::Sequence(v->Vec_0.type_, trees_of(full));
        assert(tt is Sequence);
        assert(tt->Sequence_1 == trees_of(full));
        assert(!(exists|i: int| 0 <= i < tt->Sequence_1.len() && ((#[trigger] tt->Sequence_1[i]) == needle || occurs_in(tt->Sequence_1[i], needle))));
        assert(!(trees_of(full)[n] == needle || occurs_in(trees_of(full)[n], needle)));
        assert(wf_value(full[n]));
        assert(decreases_to!(v => v->Vec_0));
        assert(decreases_to!(v->Vec_0 => v->Vec_0.value));
        assert(decreases_to!(v->Vec_0.value => full));
        assert(decreases_to!(full => full[n]));
        lemma_absent_count(full[n], needle, rep);
    }
}

proof fn lemma_absent_entries_count(v: Supervalue, s: Seq<(String, Supervalue)>, needle: Tree, rep: Option<Tree>)
    requires
        v is Mapping,
        wf_value(v),
        !occurs_in(v@, needle),
        s.len() <= v->Mapping_0.value@.len(),
        s == v->Mapping_0.value@.subrange(0, s.len() as int),
    ensures
        entries_count(s, needle, rep) == 0,
    decreases v, 0int, s.len(),
{
    if s.len() > 0 {
        let full = v->Mapping_0.value@;
        let n = s.len() - 1;
        assert(s.drop_last() =~= full.subrange(0, n));
        lemma_absent_entries_count(v, s.drop_last(), needle, rep);
        lemma_entries_index(full, n);
        let m = entries_tree(full);
        let key = full[n].0@;
        assert(m.contains_key(key));
        assert(v == Supervalue::Mapping(v->Mapping_0));
        assert(v@ == Tree::Mapping(v->Mapping_0.type_, m));
        let tt = Tree::Mapping(v->Mapping_0.type_, m);
        assert(!occurs_in(tt, needle));
        assert(tt->Mapping_1 == m);
        assert(!(exists|k: Seq<char>|
            #[trigger] tt->Mapping_1.contains_key(k) && (tt->Mapping_1[k] == needle || occurs_in(tt->Mapping_1[k], needle)
                || key_hit(k, needle, None))));
        assert(!(m[key] == needle || occurs_in(m[key], needle) || key_hit(key, needle, None)));
        assert(wf_value(full[n].1));
        assert(decreases_to!(v => v->Mapping_0));
        assert(decreases_to!(v->Mapping_0 => v->Mapping_0.value));
        assert(decreases_to!(v->Mapping_0.value => full));
        assert(decreases_to!(full => full[n]));
        assert(decreases_to!(full[n] => full[n].1));
        lemma_absent_count(full[n].1, needle, rep);
        assert(s.last() == full[n]);
    }
}

proof fn lemma_delete_clears(t: Tree, needle: Tree)
    requires
        !is_container(needle),
        needle != Tree::Null,
        t != needle,
    ensures
        !occurs_in(searched(t, needle, None, false), needle),
        searched(t, needle, None, false) != needle,
    decreases t, 1int,
{
    match t {
        Tree::Sequence(k, s) => {
            assert(s =~= s.subrange(0, s.len() as int));
            lemma_delete_clears_seq(t, s, needle);
            let r = seq_searched(s, needle, None);
            assert forall|i: int| 0 <= i < r.len() implies !(#[trigger] r[i] == needle || occurs_in(r[i], needle)) by {
                let j = choose|j: int| 0 <= j < s.len() && s[j] != needle && r[i] == searched(s[j], needle, None, false);
                lemma_delete_clears(s[j], needle);
            }
        },
        Tree::Mapping(k, m) => {
            let r = searched(t, needle, None, false)->Mapping_1;
            let base = values_searched(m, needle, None);
            lemma_searched_mapping(k, m, needle, None, false);
            assert(r =~= key_searched(base, m, needle, None));
            assert forall|key: Seq<char>| #[trigger] r.contains_key(key) implies !(r[key] == needle || occurs_in(r[key], needle)
                || key_hit(key, needle, None)) by {
                assert(base.contains_key(key));
                lemma_values_searched(m, needle, None, key);
                assert(m[key] != needle);
                assert(r[key] == base[key]);
                assert(r[key] == searched(m[key], needle, None, false));
                lemma_delete_clears(m[key], needle);
            }
        },
        _ => {},
    }
}

proof fn lemma_delete_clears_seq(t: Tree, s: Seq<Tree>, needle: Tree)
    requires
        t is Sequence,
        s.len() <= t->Sequence_1.len(),
        s == t->Sequence_1.subrange(0, s.len() as int),
    ensures
        forall|i: int|
            0 <= i < seq_searched(s, needle, None).len() ==> exists|j: int|
                0 <= j < s.len() && s[j] != needle && #[trigger] seq_searched(s, needle, None)[i] == searched(
                    s[j],
                    needle,
                    None,
                    false,
                ),
    decreases t, 0int, s.len(),
{
    if s.len() > 0 {
        let full = t->Sequence_1;
        let n = s.len() - 1;
        assert(s.drop_last() =~= full.subrange(0, n));
        lemma_delete_clears_seq(t, s.drop_last(), needle);
        let prev = seq_searched(s.drop_last(), needle, None);
        let r = seq_searched(s, needle, None);
        assert forall|i: int| 0 <= i < r.len() implies exists|j: int|
            0 <= j < s.len() && s[j] != needle && #[trigger] r[i] == searched(s[j], needle, None, false) by {
            if i < prev.len() {
                let j = choose|j: int|
                    0 <= j < s.drop_last().len() && s.drop_last()[j] != needle && #[trigger] prev[i] == searched(
                        s.drop_last()[j],
                        needle,
                        None,
                        false,
                    );
                assert(s[j] == s.drop_last()[j]);
            } else {
                assert(s[n] == s.last());
            }
        }
    }
}

/// Deleting by search is idempotent for a needle that is a scalar other than `Null`: on
/// the result of one pass, a second pass changes nothing and counts no match. (With a
/// container needle it is not: deleting `[1]` inside `[[1, [1]]]` leaves `[[1]]`, which a
/// second pass deletes again.)
pub proof fn law_search_delete_twice(t: Tree, needle: Tree, w: Supervalue)
    requires
        !is_container(needle),
        needle != Tree::Null,
        wf_value(w),
        w@ == searched(t, needle, None, true),
    ensures
        searched(w@, needle, None, true) == w@,
        match_count(w, needle, None, true) == 0,
{
    if t != needle {
        lemma_delete_clears(t, needle);
    }
    lemma_absent_unchanged(w@, needle, None);
    lemma_absent_count(w, needle, None);
}

} // verus!
