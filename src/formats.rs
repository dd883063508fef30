use vstd::prelude::*;
use crate::supervalue::{
    entries_tree, keys_unique, lemma_vec_tree, trees_of, Supervalue, SupervalueMap, SupervalueVec, TomlDatetime, TomlOffset,
    Tree,
};

verus! {

/// The text that `toml` writes for a date-time (RFC 3339 style, as in a TOML document).
pub uninterp spec fn datetime_text(d: TomlDatetime) -> Seq<char>;

/// The offset lies where toml's parser keeps it, within a day either way: toml writes
/// any other offset by negating it, which overflows for `i16::MIN`.
pub open spec fn datetime_in_range(d: TomlDatetime) -> bool {
    match d.offset {
        Some(TomlOffset::Custom(minutes)) => -1440 <= minutes && minutes <= 1440,
        _ => true,
    }
}

/// Every date-time in the value, at any depth, is in range.
pub open(crate) spec fn datetimes_in_range(v: Supervalue) -> bool
    decreases v,
{
    match v {
        Supervalue::Mapping(m) => forall|i: int|
            0 <= i < m.value@.len() ==> datetimes_in_range(#[trigger] m.value@[i].1),
        Supervalue::Vec(sv) => forall|i: int| 0 <= i < sv.value@.len() ==> datetimes_in_range(#[trigger] sv.value@[i]),
        Supervalue::TomlDatetime(d) => datetime_in_range(d),
        _ => true,
    }
}

/// Whether every date-time in `v` is in range (see `datetime_in_range`).
pub fn check_datetimes(v: &Supervalue) -> (r: bool)
    ensures
        r == datetimes_in_range(*v),
    decreases v,
{
    match v {
        Supervalue::Mapping(m) => {
            let mut i: usize = 0;
            while i < m.value.len()
                invariant
                    *v == Supervalue::Mapping(*m),
                    i <= m.value@.len(),
                    forall|j: int| 0 <= j < i ==> datetimes_in_range(#[trigger] m.value@[j].1),
                decreases m.value@.len() - i,
            {
                proof {
                    assert(decreases_to!(*v => (*v)->Mapping_0));
                    assert(decreases_to!(*m => m.value));
                    assert(decreases_to!(m.value => m.value@));
                    assert(decreases_to!(m.value@ => m.value@[i as int]));
                    assert(decreases_to!(m.value@[i as int] => m.value@[i as int].1));
                }
                if !check_datetimes(&m.value[i].1) {
                    return false;
                }
                i = i + 1;
            }
            true
        },
        Supervalue::Vec(sv) => {
            let mut i: usize = 0;
            while i < sv.value.len()
                invariant
                    *v == Supervalue::Vec(*sv),
                    i <= sv.value@.len(),
                    forall|j: int| 0 <= j < i ==> datetimes_in_range(#[trigger] sv.value@[j]),
                decreases sv.value@.len() - i,
            {
                proof {
                    assert(decreases_to!(*v => (*v)->Vec_0));
                    assert(decreases_to!(*sv => sv.value));
                    assert(decreases_to!(sv.value => sv.value@));
                    assert(decreases_to!(sv.value@ => sv.value@[i as int]));
                }
                if !check_datetimes(&sv.value[i]) {
                    return false;
                }
                i = i + 1;
            }
            true
        },
        Supervalue::TomlDatetime(d) => match d.offset {
            Some(TomlOffset::Custom(minutes)) => -1440 <= minutes && minutes <= 1440,
            _ => true,
        },
        _ => true,
    }
}

/// Relies on `Display` of `toml::value::Datetime`: its text depends on the date-time's
/// fields alone. It panics on an offset of `i16::MIN` minutes, which `requires` leaves out.
#[verifier::external_body]
fn render_datetime(d: &TomlDatetime) -> (r: String)
    requires
        datetime_in_range(*d),
    ensures
        r@ == datetime_text(*d),
{
    toml::value::Datetime {
        date: d.date.map(|x| toml::value::Date { year: x.year, month: x.month, day: x.day }),
        time: d.time.map(|x| toml::value::Time { hour: x.hour, minute: x.minute, second: x.second, nanosecond: x.nanosecond }),
        offset: d.offset.map(|x| match x {
            TomlOffset::Z => toml::value::Offset::Z,
            TomlOffset::Custom(minutes) => toml::value::Offset::Custom { minutes },
        }),
    }.to_string()
}

/// The document with every TOML date-time replaced by its text: what a format without
/// date-times (JSON, YAML) can hold.
pub open spec fn without_datetimes(t: Tree) -> Tree
    decreases t,
{
    match t {
        Tree::Mapping(k, m) => Tree::Mapping(
            k,
            Map::new(
                |key: Seq<char>| m.contains_key(key),
                |key: Seq<char>|
                    if m.contains_key(key) {
                        without_datetimes(m[key])
                    } else {
                        Tree::Null
                    },
            ),
        ),
        Tree::Sequence(k, s) => Tree::Sequence(
            k,
            Seq::new(
                s.len(),
                |i: int|
                    if 0 <= i < s.len() {
                        without_datetimes(s[i])
                    } else {
                        Tree::Null
                    },
            ),
        ),
        Tree::TomlDatetime(d) => Tree::Text(datetime_text(d)),
        _ => t,
    }
}

proof fn lemma_entries_mapped(s: Seq<(String, Supervalue)>, t: Seq<(String, Supervalue)>)
    requires
        s.len() == t.len(),
        forall|i: int|
            0 <= i < s.len() ==> #[trigger] t[i].0@ == s[i].0@ && t[i].1.tree() == without_datetimes(s[i].1.tree()),
    ensures
        entries_tree(t) == Map::new(
            |key: Seq<char>| entries_tree(s).contains_key(key),
            |key: Seq<char>|
                if entries_tree(s).contains_key(key) {
                    without_datetimes(entries_tree(s)[key])
                } else {
                    Tree::Null
                },
        ),
    decreases s.len(),
{
    if s.len() > 0 {
        lemma_entries_mapped(s.drop_last(), t.drop_last());
        assert(t[t.len() - 1].0@ == s[s.len() - 1].0@);
        assert(entries_tree(t) =~= Map::new(
            |key: Seq<char>| entries_tree(s).contains_key(key),
            |key: Seq<char>|
                if entries_tree(s).contains_key(key) {
                    without_datetimes(entries_tree(s)[key])
                } else {
                    Tree::Null
                },
        ));
    } else {
        assert(entries_tree(t) =~= Map::new(
            |key: Seq<char>| entries_tree(s).contains_key(key),
            |key: Seq<char>|
                if entries_tree(s).contains_key(key) {
                    without_datetimes(entries_tree(s)[key])
                } else {
                    Tree::Null
                },
        ));
    }
}

/// Replaces every TOML date-time in `v` by its text, ahead of writing `v` as JSON or YAML.
/// Every date-time must be in range (`check_datetimes` tells); parsed TOML always is.
pub fn datetimes_as_text(v: Supervalue) -> (r: Supervalue)
    requires
        datetimes_in_range(v),
    ensures
        r@ == without_datetimes(v@),
    decreases v,
{
    let ghost v0 = v;
    match v {
        Supervalue::Mapping(m) => {
            proof {
                use_type_invariant(&m);
            }
            let ghost orig = m.value@;
            let kind = m.type_;
            let mut entries = m.value;
            let mut out: Vec<(String, Supervalue)> = Vec::new();
            let mut i: usize = 0;
            while i < entries.len()
                invariant
                    v == v0,
                    v0 == Supervalue::Mapping(m),
                    orig == m.value@,
                    keys_unique(orig),
                    datetimes_in_range(v0),
                    entries@.len() == orig.len(),
                    i <= orig.len(),
                    forall|j: int| i <= j < orig.len() ==> #[trigger] entries@[j] == orig[j],
                    out@.len() == i,
                    forall|j: int|
                        0 <= j < i ==> #[trigger] out@[j].0@ == orig[j].0@ && out@[j].1.tree() == without_datetimes(
                            orig[j].1.tree(),
                        ),
                decreases orig.len() - i,
            {
                let mut x = Supervalue::Null;
                std::mem::swap(&mut x, &mut entries[i].1);
                let k = entries[i].0.clone();
                proof {
                    assert(x == orig[i as int].1);
                    assert(datetimes_in_range(m.value@[i as int].1));
                    assert(decreases_to!(v0 => v0->Mapping_0));
                    assert(decreases_to!(m => m.value));
                    assert(decreases_to!(m.value => m.value@));
                    assert(decreases_to!(m.value@ => m.value@[i as int]));
                    assert(decreases_to!(m.value@[i as int] => m.value@[i as int].1));
                }
                let y = datetimes_as_text(x);
                out.push((k, y));
                i = i + 1;
            }
            proof {
                lemma_entries_mapped(orig, out@);
                assert(v0@ == Tree::Mapping(kind, entries_tree(orig)));
                assert(entries_tree(out@) =~= without_datetimes(v0@)->Mapping_1);
                assert(keys_unique(out@)) by {
                    assert forall|a: int, b: int|
                        0 <= a < out@.len() && 0 <= b < out@.len() && a != b implies #[trigger] out@[a].0@
                        != #[trigger] out@[b].0@ by {
                        assert(orig[a].0@ != orig[b].0@);
                    }
                }
            }
            Supervalue::Mapping(SupervalueMap { type_: kind, value: out })
        },
        Supervalue::Vec(sv) => {
            let ghost orig = sv.value@;
            let kind = sv.type_;
            let mut items = sv.value;
            let mut out: Vec<Supervalue> = Vec::new();
            let mut i: usize = 0;
            while i < items.len()
                invariant
                    v == v0,
                    v0 == Supervalue::Vec(sv),
                    orig == sv.value@,
                    datetimes_in_range(v0),
                    items@.len() == orig.len(),
                    i <= orig.len(),
                    forall|j: int| i <= j < orig.len() ==> #[trigger] items@[j] == orig[j],
                    out@.len() == i,
                    forall|j: int| 0 <= j < i ==> #[trigger] out@[j].tree() == without_datetimes(orig[j].tree()),
                decreases orig.len() - i,
            {
                let mut x = Supervalue::Null;
                std::mem::swap(&mut x, &mut items[i]);
                proof {
                    assert(x == orig[i as int]);
                    assert(datetimes_in_range(sv.value@[i as int]));
                    assert(decreases_to!(v0 => v0->Vec_0));
                    assert(decreases_to!(sv => sv.value));
                    assert(decreases_to!(sv.value => sv.value@));
                    assert(decreases_to!(sv.value@ => sv.value@[i as int]));
                }
                let y = datetimes_as_text(x);
                out.push(y);
                i = i + 1;
            }
            let r = SupervalueVec { type_: kind, value: out };
            proof {
                lemma_vec_tree(sv);
                lemma_vec_tree(r);
                assert(trees_of(out@) =~= without_datetimes(v0@)->Sequence_1);
            }
            Supervalue::Vec(r)
        },
        Supervalue::TomlDatetime(d) => Supervalue::String(render_datetime(&d)),
        other => other,
    }
}

} // verus!
