use vstd::prelude::*;
use crate::supervalue::{
    lemma_vec_tree, trees_of, Supervalue, SupervalueMap, SupervalueMapType, SupervalueVec, SupervalueVecType, Tree,
};

verus! {

/// The key under which a YAML-tag map holds the tag.
pub const YAML_TAG_TAG: &'static str = "tag";

/// The key under which a YAML-tag map holds the tagged value.
pub const YAML_TAG_VALUE: &'static str = "value";

/// Which format a document was read from.
#[derive(Clone, Copy, Debug, PartialEq, Eq, Structural)]
pub enum AargSupervalueOriginalFormat {
    Json,
    Yaml,
    Toml,
}

/// Every key is a string.
pub open spec fn all_string_keys(s: Seq<(Supervalue, Supervalue)>) -> bool {
    forall|i: int| 0 <= i < s.len() ==> (#[trigger] s[i]).0 is String
}

/// The map of string-keyed pairs (a later pair wins over an earlier one with its key).
pub open spec fn pairs_map(s: Seq<(Supervalue, Supervalue)>) -> Map<Seq<char>, Tree>
    decreases s.len(),
{
    if s.len() == 0 {
        Map::empty()
    } else {
        pairs_map(s.drop_last()).insert(s.last().0->String_0@, s.last().1@)
    }
}

/// Each pair as a two-element sequence.
pub open spec fn pairs_seq(s: Seq<(Supervalue, Supervalue)>) -> Seq<Tree> {
    Seq::new(s.len(), |i: int| Tree::Sequence(SupervalueVecType::Normal, seq![s[i].0@, s[i].1@]))
}

/// A YAML mapping whose keys and values were converted already. Where every key is a
/// string it becomes an ordinary map; otherwise, since it cannot be addressed by key, a
/// `YamlMap` sequence of `[key, value]` pairs.
pub fn from_yaml_mapping(entries: Vec<(Supervalue, Supervalue)>) -> (r: Supervalue)
    ensures
        all_string_keys(entries@) ==> r@ == Tree::Mapping(SupervalueMapType::Normal, pairs_map(entries@)),
        !all_string_keys(entries@) ==> r@ == Tree::Sequence(SupervalueVecType::YamlMap, pairs_seq(entries@)),
{
    let ghost orig = entries@;
    let mut all_strings = true;
    let mut i: usize = 0;
    while i < entries.len()
        invariant
            entries@ == orig,
            i <= orig.len(),
            all_strings == forall|j: int| 0 <= j < i ==> (#[trigger] orig[j]).0 is String,
        decreases orig.len() - i,
    {
        match &entries[i].0 {
            Supervalue::String(_) => {},
            _ => {
                all_strings = false;
            },
        }
        i = i + 1;
    }
    let mut entries = entries;
    if all_strings {
        let mut m = SupervalueMap::new(SupervalueMapType::Normal);
        let mut taken: Vec<(Supervalue, Supervalue)> = Vec::new();
        let mut i: usize = 0;
        while i < entries.len()
            invariant
                entries@.len() == orig.len(),
                all_string_keys(orig),
                i <= orig.len(),
                forall|j: int| i <= j < orig.len() ==> #[trigger] entries@[j] == orig[j],
                m.kind() == SupervalueMapType::Normal,
                m.contents() == pairs_map(orig.subrange(0, i as int)),
            decreases orig.len() - i,
        {
            let mut pair = (Supervalue::Null, Supervalue::Null);
            std::mem::swap(&mut pair, &mut entries[i]);
            let (k, v) = pair;
            proof {
                assert(orig.subrange(0, i + 1).drop_last() =~= orig.subrange(0, i as int));
                assert(orig[i as int].0 is String);
            }
            match k {
                Supervalue::String(key) => {
                    m.insert(key, v);
                },
                _ => {},
            }
            i = i + 1;
        }
        proof {
            assert(orig.subrange(0, orig.len() as int) =~= orig);
        }
        Supervalue::Mapping(m)
    } else {
        let mut out: Vec<Supervalue> = Vec::new();
        let mut i: usize = 0;
        while i < entries.len()
            invariant
                entries@.len() == orig.len(),
                i <= orig.len(),
                forall|j: int| i <= j < orig.len() ==> #[trigger] entries@[j] == orig[j],
                out@.len() == i,
                forall|j: int| 0 <= j < i ==> #[trigger] out@[j].tree() == pairs_seq(orig)[j],
            decreases orig.len() - i,
        {
            let mut pair = (Supervalue::Null, Supervalue::Null);
            std::mem::swap(&mut pair, &mut entries[i]);
            let (k, v) = pair;
            let mut kv: Vec<Supervalue> = Vec::new();
            kv.push(k);
            kv.push(v);
            let item = SupervalueVec { type_: SupervalueVecType::Normal, value: kv };
            proof {
                lemma_vec_tree(item);
                assert(trees_of(kv@) =~= seq![orig[i as int].0@, orig[i as int].1@]);
            }
            out.push(Supervalue::Vec(item));
            i = i + 1;
        }
        let r = SupervalueVec { type_: SupervalueVecType::YamlMap, value: out };
        proof {
            lemma_vec_tree(r);
            assert(trees_of(out@) =~= pairs_seq(orig));
        }
        Supervalue::Vec(r)
    }
}

/// A YAML tagged value: a `YamlTag` map holding the tag under `YAML_TAG_TAG` and the
/// value under `YAML_TAG_VALUE`.
pub fn from_yaml_tagged(tag: String, value: Supervalue) -> (r: Supervalue)
    ensures
        r@ == Tree::Mapping(
            SupervalueMapType::YamlTag,
            Map::empty().insert(YAML_TAG_TAG@, Tree::Text(tag@)).insert(YAML_TAG_VALUE@, value@),
        ),
{
    let mut m = SupervalueMap::new(SupervalueMapType::YamlTag);
    m.insert(String::from_str(YAML_TAG_TAG), Supervalue::String(tag));
    m.insert(String::from_str(YAML_TAG_VALUE), value);
    Supervalue::Mapping(m)
}

/// The tag and the value of a YAML-tag map that holds a string tag and a value; `None`
/// for anything else.
pub fn yaml_tagged_parts(v: &Supervalue) -> (r: Option<(String, Supervalue)>)
    ensures
        match r {
            Some((tag, value)) => v@ is Mapping && v@->Mapping_0 == SupervalueMapType::YamlTag
                && v@->Mapping_1.contains_key(YAML_TAG_TAG@) && v@->Mapping_1[YAML_TAG_TAG@] == Tree::Text(tag@)
                && v@->Mapping_1.contains_key(YAML_TAG_VALUE@) && v@->Mapping_1[YAML_TAG_VALUE@] == value@,
            None => !(v@ is Mapping && v@->Mapping_0 == SupervalueMapType::YamlTag && v@->Mapping_1.contains_key(
                YAML_TAG_TAG@,
            ) && v@->Mapping_1[YAML_TAG_TAG@] is Text && v@->Mapping_1.contains_key(YAML_TAG_VALUE@)),
        },
{
    match v {
        Supervalue::Mapping(m) => {
            if m.type_() != SupervalueMapType::YamlTag {
                return None;
            }
            let tag_key = String::from_str(YAML_TAG_TAG);
            let value_key = String::from_str(YAML_TAG_VALUE);
            match (m.get(&tag_key), m.get(&value_key)) {
                (Some(Supervalue::String(tag)), Some(value)) => Some((tag.clone(), value.clone_value())),
                _ => None,
            }
        },
        _ => None,
    }
}

/// The `[key, value]` pairs of a `YamlMap` sequence whose every element is a sequence of
/// exactly two; `None` for anything else.
pub fn yaml_mapping_pairs(v: &Supervalue) -> (r: Option<Vec<(Supervalue, Supervalue)>>)
    ensures
        match r {
            Some(pairs) => v@ is Sequence && v@->Sequence_0 == SupervalueVecType::YamlMap && pairs@.len()
                == v@->Sequence_1.len() && forall|i: int|
                0 <= i < pairs@.len() ==> (#[trigger] v@->Sequence_1[i]) is Sequence && v@->Sequence_1[i]->Sequence_1
                    == seq![pairs@[i].0@, pairs@[i].1@],
            None => !(v@ is Sequence && v@->Sequence_0 == SupervalueVecType::YamlMap && forall|i: int|
                0 <= i < v@->Sequence_1.len() ==> (#[trigger] v@->Sequence_1[i]) is Sequence
                    && v@->Sequence_1[i]->Sequence_1.len() == 2),
        },
{
    match v {
        Supervalue::Vec(sv) => {
            proof {
                lemma_vec_tree(*sv);
            }
            if sv.type_ != SupervalueVecType::YamlMap {
                return None;
            }
            let mut out: Vec<(Supervalue, Supervalue)> = Vec::new();
            let mut i: usize = 0;
            while i < sv.value.len()
                invariant
                    v@ == Tree::Sequence(sv.type_, trees_of(sv.value@)),
                    sv.type_ == SupervalueVecType::YamlMap,
                    i <= sv.value@.len(),
                    out@.len() == i,
                    forall|j: int|
                        0 <= j < i ==> (#[trigger] trees_of(sv.value@)[j]) is Sequence && trees_of(sv.value@)[j]->Sequence_1
                            == seq![out@[j].0@, out@[j].1@],
                decreases sv.value@.len() - i,
            {
                match &sv.value[i] {
                    Supervalue::Vec(kv) => {
                        proof {
                            lemma_vec_tree(*kv);
                            assert(trees_of(sv.value@)[i as int] == sv.value@[i as int]@);
                        }
                        if kv.value.len() != 2 {
                            proof {
                                assert(v@->Sequence_1[i as int] == Tree::Sequence(kv.type_, trees_of(kv.value@)));
                            }
                            return None;
                        }
                        let k = kv.value[0].clone_value();
                        let w = kv.value[1].clone_value();
                        let ghost before = out@;
                        out.push((k, w));
                        proof {
                            assert(trees_of(kv.value@) =~= seq![k@, w@]);
                            assert forall|j: int| 0 <= j < i + 1 implies (#[trigger] trees_of(sv.value@)[j]) is Sequence
                                && trees_of(sv.value@)[j]->Sequence_1 == seq![out@[j].0@, out@[j].1@] by {
                                if j < i {
                                    assert(out@[j] == before[j]);
                                }
                            }
                        }
                    },
                    _ => {
                        proof {
                            assert(trees_of(sv.value@)[i as int] == sv.value@[i as int]@);
                            assert(!(v@->Sequence_1[i as int] is Sequence));
                        }
                        return None;
                    },
                }
                i = i + 1;
            }
            Some(out)
        },
        _ => None,
    }
}

} // verus!
