use vstd::prelude::*;

verus! {

/// Which kind of keyed container a mapping node is.
#[derive(Clone, Copy, Debug, PartialEq, Eq, Structural)]
pub enum SupervalueMapType {
    /// An ordinary keyed map.
    Normal,
    /// A YAML tagged value, holding the tag under `YAML_TAG_TAG` and the payload under
    /// `YAML_TAG_VALUE`.
    YamlTag,
}

/// Which kind of ordered container a sequence node is.
#[derive(Clone, Copy, Debug, PartialEq, Eq, Structural)]
pub enum SupervalueVecType {
    /// An ordinary list.
    Normal,
    /// A YAML mapping with a non-string key, held as a list of `[key, value]` pairs.
    YamlMap,
}

/// A number that came from JSON (or TOML): an unsigned integer, a negative integer, or a
/// finite float held as its IEEE-754 bit pattern.
#[derive(Clone, Copy, Debug)]
pub enum JsonNumber {
    PosInt(u64),
    NegInt(i64),
    Float(u64),
}

/// A number that came from YAML: an unsigned integer, a negative integer, or a float held
/// as its IEEE-754 bit pattern.
#[derive(Clone, Copy, Debug)]
pub enum YamlNumber {
    PosInt(u64),
    NegInt(i64),
    Float(u64),
}

/// Bit pattern of the float negative zero.
pub const NEG_ZERO_BITS: u64 = 0x8000_0000_0000_0000;

/// Bit pattern of the quiet NaN that stands for every NaN.
pub const CANONICAL_NAN_BITS: u64 = 0x7ff8_0000_0000_0000;

/// The float with these bits is a NaN: all exponent bits set and a non-zero fraction.
pub open spec fn is_nan_bits(bits: u64) -> bool {
    (bits as int / 0x10_0000_0000_0000) % 0x800 == 0x7ff && bits as int % 0x10_0000_0000_0000 != 0
}

impl JsonNumber {
    /// The representative of this number under float equality: negative zero becomes
    /// positive zero (a JSON float is never a NaN).
    pub open spec fn canonical(self) -> JsonNumber {
        match self {
            JsonNumber::Float(b) => if b == NEG_ZERO_BITS { JsonNumber::Float(0) } else { self },
            _ => self,
        }
    }

    pub fn canonicalize(&self) -> (r: JsonNumber)
        ensures
            r == self.canonical(),
    {
        match *self {
            JsonNumber::Float(b) => if b == NEG_ZERO_BITS { JsonNumber::Float(0) } else { *self },
            _ => *self,
        }
    }
}

/// The integer a number holds, where it is one that fits in `i64`.
pub open spec fn int_as_i64(pos: Option<u64>, neg: Option<i64>) -> Option<i64> {
    match (pos, neg) {
        (Some(u), _) => if u <= i64::MAX as u64 { Some(u as i64) } else { None },
        (_, Some(i)) => Some(i),
        _ => None,
    }
}

impl JsonNumber {
    /// The number as an `i64`: an integer that fits, and never a float.
    pub fn as_i64(&self) -> (r: Option<i64>)
        ensures
            r == match *self {
                JsonNumber::PosInt(u) => int_as_i64(Some(u), None),
                JsonNumber::NegInt(i) => int_as_i64(None, Some(i)),
                JsonNumber::Float(_) => None,
            },
    {
        match *self {
            JsonNumber::PosInt(u) => if u <= i64::MAX as u64 { Some(u as i64) } else { None },
            JsonNumber::NegInt(i) => Some(i),
            JsonNumber::Float(_) => None,
        }
    }
}

impl YamlNumber {
    /// The number as an `i64`: an integer that fits, and never a float.
    pub fn as_i64(&self) -> (r: Option<i64>)
        ensures
            r == match *self {
                YamlNumber::PosInt(u) => int_as_i64(Some(u), None),
                YamlNumber::NegInt(i) => int_as_i64(None, Some(i)),
                YamlNumber::Float(_) => None,
            },
    {
        match *self {
            YamlNumber::PosInt(u) => if u <= i64::MAX as u64 { Some(u as i64) } else { None },
            YamlNumber::NegInt(i) => Some(i),
            YamlNumber::Float(_) => None,
        }
    }
}

impl YamlNumber {
    /// The representative of this number under YAML number equality: negative zero
    /// becomes positive zero and every NaN the same NaN.
    pub open spec fn canonical(self) -> YamlNumber {
        match self {
            YamlNumber::Float(b) => if b == NEG_ZERO_BITS {
                YamlNumber::Float(0)
            } else if is_nan_bits(b) {
                YamlNumber::Float(CANONICAL_NAN_BITS)
            } else {
                self
            },
            _ => self,
        }
    }

    pub fn canonicalize(&self) -> (r: YamlNumber)
        ensures
            r == self.canonical(),
    {
        match *self {
            YamlNumber::Float(b) => if b == NEG_ZERO_BITS {
                YamlNumber::Float(0)
            } else if (b / 0x10_0000_0000_0000) % 0x800 == 0x7ff && b % 0x10_0000_0000_0000
                != 0 {
                YamlNumber::Float(CANONICAL_NAN_BITS)
            } else {
                *self
            },
            _ => *self,
        }
    }
}

/// A TOML local date.
#[derive(Clone, Copy, Debug, PartialEq, Eq, Structural)]
pub struct TomlDate {
    pub year: u16,
    pub month: u8,
    pub day: u8,
}

/// A TOML local time.
#[derive(Clone, Copy, Debug, PartialEq, Eq, Structural)]
pub struct TomlTime {
    pub hour: u8,
    pub minute: u8,
    pub second: u8,
    pub nanosecond: u32,
}

/// A TOML offset from UTC: `Z`, or a number of minutes.
#[derive(Clone, Copy, Debug, PartialEq, Eq, Structural)]
pub enum TomlOffset {
    Z,
    Custom(i16),
}

/// A TOML date-time: any of date, time and offset may be absent.
#[derive(Clone, Copy, Debug, PartialEq, Eq, Structural)]
pub struct TomlDatetime {
    pub date: Option<TomlDate>,
    pub time: Option<TomlTime>,
    pub offset: Option<TomlOffset>,
}

/// A keyed container. Each key occurs at most once.
#[derive(Debug)]
pub struct SupervalueMap {
    pub(crate) type_: SupervalueMapType,
    pub(crate) value: Vec<(String, Supervalue)>,
}

/// An ordered container.
#[derive(Debug)]
pub struct SupervalueVec {
    pub type_: SupervalueVecType,
    pub value: Vec<Supervalue>,
}

/// A document node, whatever format it came from.
#[derive(Debug)]
pub enum Supervalue {
    Mapping(SupervalueMap),
    Vec(SupervalueVec),
    Null,
    Bool(bool),
    String(String),
    JsonNumber(JsonNumber),
    YamlNumber(YamlNumber),
    TomlDatetime(TomlDatetime),
}

/// The mathematical document that a `Supervalue` stands for. Two documents are equal
/// exactly when they are the same variant with equal payloads; maps are compared as maps,
/// whatever order their entries were stored in.
pub enum Tree {
    Mapping(SupervalueMapType, Map<Seq<char>, Tree>),
    Sequence(SupervalueVecType, Seq<Tree>),
    Null,
    Bool(bool),
    Text(Seq<char>),
    JsonNumber(JsonNumber),
    YamlNumber(YamlNumber),
    TomlDatetime(TomlDatetime),
}

impl Tree {
    /// An empty ordinary map.
    pub open spec fn empty_map() -> Tree {
        Tree::Mapping(SupervalueMapType::Normal, Map::empty())
    }
}

/// No two entries share a key.
pub open spec fn keys_unique(s: Seq<(String, Supervalue)>) -> bool {
    forall|i: int, j: int|
        0 <= i < s.len() && 0 <= j < s.len() && i != j ==> #[trigger] s[i].0@ != #[trigger] s[j].0@
}

/// Some entry has key `k`.
pub open spec fn has_key(s: Seq<(String, Supervalue)>, k: Seq<char>) -> bool {
    exists|i: int| 0 <= i < s.len() && #[trigger] s[i].0@ == k
}

/// The map that a list of entries stands for.
pub open spec fn entries_tree(s: Seq<(String, Supervalue)>) -> Map<Seq<char>, Tree>
    decreases s,
{
    if s.len() == 0 {
        Map::empty()
    } else {
        entries_tree(s.drop_last()).insert(s.last().0@, s.last().1.tree())
    }
}

impl SupervalueMap {
    #[verifier::type_invariant]
    pub open(crate) spec fn inv(self) -> bool {
        keys_unique(self.value@)
    }

    /// The map kind.
    pub open(crate) spec fn kind(self) -> SupervalueMapType {
        self.type_
    }

    /// The keyed contents.
    pub open(crate) spec fn contents(self) -> Map<Seq<char>, Tree> {
        entries_tree(self.value@)
    }
}

impl Supervalue {
    /// The document this value stands for.
    pub open(crate) spec fn tree(self) -> Tree
        decreases self,
    {
        match self {
            Supervalue::Mapping(m) => Tree::Mapping(m.type_, entries_tree(m.value@)),
            Supervalue::Vec(v) => Tree::Sequence(
                v.type_,
                Seq::new(
                    v.value@.len(),
                    |i: int|
                        if 0 <= i < v.value@.len() {
                            v.value@[i].tree()
                        } else {
                            Tree::Null
                        },
                ),
            ),
            Supervalue::Null => Tree::Null,
            Supervalue::Bool(b) => Tree::Bool(b),
            Supervalue::String(s) => Tree::Text(s@),
            Supervalue::JsonNumber(n) => Tree::JsonNumber(n.canonical()),
            Supervalue::YamlNumber(n) => Tree::YamlNumber(n.canonical()),
            Supervalue::TomlDatetime(d) => Tree::TomlDatetime(d),
        }
    }
}

impl View for Supervalue {
    type V = Tree;

    open spec fn view(&self) -> Tree {
        self.tree()
    }
}

/// Every map in the value, at any depth, has unique keys: what the type invariant of
/// `SupervalueMap` guarantees of every value that code builds.
pub open(crate) spec fn wf_value(v: Supervalue) -> bool
    decreases v,
{
    match v {
        Supervalue::Mapping(m) => keys_unique(m.value@) && forall|i: int|
            0 <= i < m.value@.len() ==> wf_value(#[trigger] m.value@[i].1),
        Supervalue::Vec(sv) => forall|i: int| 0 <= i < sv.value@.len() ==> wf_value(#[trigger] sv.value@[i]),
        _ => true,
    }
}

/// The trees of a list of values.
pub open spec fn trees_of(s: Seq<Supervalue>) -> Seq<Tree> {
    Seq::new(s.len(), |i: int| s[i].tree())
}

pub proof fn lemma_vec_tree(v: SupervalueVec)
    ensures
        Supervalue::Vec(v).tree() == Tree::Sequence(v.type_, trees_of(v.value@)),
{
    let t = Supervalue::Vec(v).tree();
    assert(t is Sequence);
    let s = t->Sequence_1;
    assert(s.len() == v.value@.len());
    assert forall|i: int| 0 <= i < s.len() implies s[i] == trees_of(v.value@)[i] by {
        assert(s[i] == v.value@[i].tree());
    }
    assert(s =~= trees_of(v.value@));
}

pub proof fn lemma_entries_finite(s: Seq<(String, Supervalue)>)
    ensures
        entries_tree(s).dom().finite(),
    decreases s.len(),
{
    if s.len() > 0 {
        lemma_entries_finite(s.drop_last());
    }
}

/// A key is in the map exactly when some entry has it.
pub proof fn lemma_entries_dom(s: Seq<(String, Supervalue)>, k: Seq<char>)
    ensures
        entries_tree(s).contains_key(k) <==> has_key(s, k),
    decreases s.len(),
{
    if s.len() > 0 {
        lemma_entries_dom(s.drop_last(), k);
        if has_key(s, k) && s.last().0@ != k {
            let i = choose|i: int| 0 <= i < s.len() && #[trigger] s[i].0@ == k;
            assert(s.drop_last()[i].0@ == k);
        }
        if has_key(s.drop_last(), k) {
            let i = choose|i: int| 0 <= i < s.len() - 1 && #[trigger] s.drop_last()[i].0@ == k;
            assert(s[i].0@ == k);
        }
        if s.last().0@ == k {
            assert(s[s.len() - 1].0@ == k);
        }
    }
}

/// With unique keys, the entry at `i` gives the value of its key.
pub proof fn lemma_entries_index(s: Seq<(String, Supervalue)>, i: int)
    requires
        keys_unique(s),
        0 <= i < s.len(),
    ensures
        entries_tree(s).contains_key(s[i].0@),
        entries_tree(s)[s[i].0@] == s[i].1.tree(),
    decreases s.len(),
{
    if i < s.len() - 1 {
        assert(keys_unique(s.drop_last()));
        lemma_entries_index(s.drop_last(), i);
        assert(s[i].0@ != s[s.len() - 1].0@);
    }
}

/// Replacing the value of the entry at `i` replaces the value of its key.
pub proof fn lemma_entries_update(s: Seq<(String, Supervalue)>, i: int, v: Supervalue)
    requires
        keys_unique(s),
        0 <= i < s.len(),
    ensures
        keys_unique(s.update(i, (s[i].0, v))),
        entries_tree(s.update(i, (s[i].0, v))) == entries_tree(s).insert(s[i].0@, v.tree()),
    decreases s.len(),
{
    let t = s.update(i, (s[i].0, v));
    assert(forall|j: int| 0 <= j < s.len() ==> #[trigger] t[j].0@ == s[j].0@);
    if i == s.len() - 1 {
        assert(t.drop_last() =~= s.drop_last());
        lemma_entries_dom(s.drop_last(), s[i].0@);
        if has_key(s.drop_last(), s[i].0@) {
            let j = choose|j: int| 0 <= j < s.len() - 1 && #[trigger] s.drop_last()[j].0@ == s[i].0@;
            assert(s[j].0@ == s[i].0@);
        }
        assert(entries_tree(t) =~= entries_tree(s).insert(s[i].0@, v.tree()));
    } else {
        assert(keys_unique(s.drop_last()));
        lemma_entries_update(s.drop_last(), i, v);
        assert(t.drop_last() =~= s.drop_last().update(i, (s[i].0, v)));
        assert(s[i].0@ != s[s.len() - 1].0@);
        assert(entries_tree(t) =~= entries_tree(s).insert(s[i].0@, v.tree()));
    }
}

/// Removing the entry at `i` removes its key.
pub proof fn lemma_entries_remove(s: Seq<(String, Supervalue)>, i: int)
    requires
        keys_unique(s),
        0 <= i < s.len(),
    ensures
        keys_unique(s.remove(i)),
        entries_tree(s.remove(i)) == entries_tree(s).remove(s[i].0@),
    decreases s.len(),
{
    let t = s.remove(i);
    assert(keys_unique(t));
    if i == s.len() - 1 {
        assert(t =~= s.drop_last());
        lemma_entries_dom(s.drop_last(), s[i].0@);
        if has_key(s.drop_last(), s[i].0@) {
            let j = choose|j: int| 0 <= j < s.len() - 1 && #[trigger] s.drop_last()[j].0@ == s[i].0@;
            assert(s[j].0@ == s[i].0@);
        }
        assert(entries_tree(t) =~= entries_tree(s).remove(s[i].0@));
    } else {
        assert(keys_unique(s.drop_last()));
        lemma_entries_remove(s.drop_last(), i);
        assert(t.drop_last() =~= s.drop_last().remove(i));
        assert(t.last() == s.last());
        assert(s[i].0@ != s[s.len() - 1].0@);
        assert(entries_tree(t) =~= entries_tree(s).remove(s[i].0@));
    }
}

/// Adding an entry with a new key inserts it.
pub proof fn lemma_entries_push(s: Seq<(String, Supervalue)>, k: String, v: Supervalue)
    requires
        keys_unique(s),
        !has_key(s, k@),
    ensures
        keys_unique(s.push((k, v))),
        entries_tree(s.push((k, v))) == entries_tree(s).insert(k@, v.tree()),
{
    let t = s.push((k, v));
    assert(t.drop_last() =~= s);
    assert forall|i: int, j: int|
        0 <= i < t.len() && 0 <= j < t.len() && i != j implies #[trigger] t[i].0@ != #[trigger] t[j].0@ by {
        if i == s.len() {
            assert(s[j].0@ == t[j].0@);
        } else if j == s.len() {
            assert(s[i].0@ == t[i].0@);
        }
    }
}

/// Two entry lists with the same keys and the same trees, entry by entry, stand for
/// the same map.
pub proof fn lemma_entries_pointwise(s: Seq<(String, Supervalue)>, t: Seq<(String, Supervalue)>)
    requires
        s.len() == t.len(),
        forall|i: int| 0 <= i < s.len() ==> #[trigger] s[i].0@ == t[i].0@ && s[i].1.tree() == t[i].1.tree(),
    ensures
        entries_tree(s) == entries_tree(t),
    decreases s.len(),
{
    if s.len() > 0 {
        lemma_entries_pointwise(s.drop_last(), t.drop_last());
        assert(s[s.len() - 1].0@ == t[t.len() - 1].0@);
    }
}

impl SupervalueMap {
    /// An empty map of the given kind.
    pub fn new(type_: SupervalueMapType) -> (r: SupervalueMap)
        ensures
            r.kind() == type_,
            r.contents() == Map::<Seq<char>, Tree>::empty(),
    {
        SupervalueMap { type_, value: Vec::new() }
    }

    /// The kind of this map.
    pub fn type_(&self) -> (r: SupervalueMapType)
        ensures
            r == self.kind(),
    {
        self.type_
    }

    /// The number of keys.
    pub fn len(&self) -> (r: usize)
        ensures
            r == self.contents().len(),
    {
        proof {
            use_type_invariant(self);
            lemma_entries_len(self.value@);
        }
        self.value.len()
    }

    /// The index of the entry with key `k`, if there is one.
    pub(crate) fn find(&self, k: &String) -> (r: Option<usize>)
        ensures
            match r {
                Some(i) => i < self.value@.len() && self.value@[i as int].0@ == k@,
                None => !has_key(self.value@, k@),
            },
            r is Some <==> self.contents().contains_key(k@),
    {
        proof {
            lemma_entries_dom(self.value@, k@);
        }
        let mut i: usize = 0;
        while i < self.value.len()
            invariant
                i <= self.value@.len(),
                forall|j: int| 0 <= j < i ==> #[trigger] self.value@[j].0@ != k@,
            decreases self.value@.len() - i,
        {
            if self.value[i].0 == *k {
                proof {
                    assert(self.value@[i as int].0@ == k@);
                    lemma_entries_dom(self.value@, k@);
                }
                return Some(i);
            }
            i = i + 1;
        }
        proof {
            lemma_entries_dom(self.value@, k@);
        }
        None
    }

    /// The entries, one per key, in the order they were stored.
    pub fn into_entries(self) -> (r: Vec<(String, Supervalue)>)
        ensures
            keys_unique(r@),
            entries_tree(r@) == self.contents(),
    {
        proof {
            use_type_invariant(&self);
        }
        self.value
    }

    /// Whether `k` is a key.
    pub fn contains_key(&self, k: &String) -> (r: bool)
        ensures
            r == self.contents().contains_key(k@),
    {
        self.find(k).is_some()
    }

    /// The value at `k`.
    pub fn get(&self, k: &String) -> (r: Option<&Supervalue>)
        ensures
            match r {
                Some(v) => self.contents().contains_key(k@) && v@ == self.contents()[k@],
                None => !self.contents().contains_key(k@),
            },
    {
        proof {
            use_type_invariant(self);
        }
        match self.find(k) {
            Some(i) => {
                proof {
                    lemma_entries_index(self.value@, i as int);
                }
                Some(&self.value[i].1)
            },
            None => None,
        }
    }

    /// Sets the value at `k`, adding the key if it is new.
    pub fn insert(&mut self, k: String, v: Supervalue)
        ensures
            final(self).kind() == old(self).kind(),
            final(self).contents() == old(self).contents().insert(k@, v@),
    {
        proof {
            use_type_invariant(&*self);
        }
        match self.find(&k) {
            Some(i) => {
                self.put_at(i, v);
            },
            None => {
                proof {
                    lemma_entries_push(self.value@, k, v);
                }
                let mut entries: Vec<(String, Supervalue)> = Vec::new();
                std::mem::swap(&mut entries, &mut self.value);
                entries.push((k, v));
                std::mem::swap(&mut entries, &mut self.value);
            },
        }
    }

    /// Removes `k` and hands back its value, if it was there.
    pub fn remove(&mut self, k: &String) -> (r: Option<Supervalue>)
        ensures
            final(self).kind() == old(self).kind(),
            final(self).contents() == old(self).contents().remove(k@),
            match r {
                Some(v) => old(self).contents().contains_key(k@) && v@ == old(self).contents()[k@],
                None => !old(self).contents().contains_key(k@),
            },
    {
        proof {
            use_type_invariant(&*self);
        }
        match self.find(k) {
            Some(i) => Some(self.remove_at(i)),
            None => {
                proof {
                    lemma_entries_dom(self.value@, k@);
                    assert(self.contents().remove(k@) =~= self.contents());
                }
                None
            },
        }
    }

    /// Removes the entry at `i` and hands back its value.
    pub(crate) fn remove_at(&mut self, i: usize) -> (r: Supervalue)
        requires
            i < old(self).value@.len(),
        ensures
            final(self).kind() == old(self).kind(),
            final(self).value@ == old(self).value@.remove(i as int),
            final(self).contents() == old(self).contents().remove(old(self).value@[i as int].0@),
            old(self).contents().contains_key(old(self).value@[i as int].0@),
            r@ == old(self).contents()[old(self).value@[i as int].0@],
            r == old(self).value@[i as int].1,
    {
        proof {
            use_type_invariant(&*self);
            lemma_entries_index(self.value@, i as int);
            lemma_entries_remove(self.value@, i as int);
        }
        let mut entries: Vec<(String, Supervalue)> = Vec::new();
        std::mem::swap(&mut entries, &mut self.value);
        let (_, v) = entries.remove(i);
        std::mem::swap(&mut entries, &mut self.value);
        v
    }

    /// Replaces the value of the entry at `i`, keeping its key.
    pub(crate) fn put_at(&mut self, i: usize, v: Supervalue)
        requires
            i < old(self).value@.len(),
        ensures
            final(self).kind() == old(self).kind(),
            final(self).value@ == old(self).value@.update(i as int, (old(self).value@[i as int].0, v)),
            final(self).contents() == old(self).contents().insert(old(self).value@[i as int].0@, v@),
    {
        proof {
            use_type_invariant(&*self);
            lemma_entries_update(self.value@, i as int, v);
        }
        let mut entries: Vec<(String, Supervalue)> = Vec::new();
        std::mem::swap(&mut entries, &mut self.value);
        let k = entries[i].0.clone();
        entries.set(i, (k, v));
        std::mem::swap(&mut entries, &mut self.value);
    }

    /// Takes the value of the entry at `i` out, leaving `Null` in its place.
    pub(crate) fn take_at(&mut self, i: usize) -> (r: Supervalue)
        requires
            i < old(self).value@.len(),
        ensures
            final(self).kind() == old(self).kind(),
            final(self).value@ == old(self).value@.update(i as int, (old(self).value@[i as int].0, Supervalue::Null)),
            r == old(self).value@[i as int].1,
            old(self).contents().contains_key(old(self).value@[i as int].0@),
            r@ == old(self).contents()[old(self).value@[i as int].0@],
            final(self).contents() == old(self).contents().insert(old(self).value@[i as int].0@, Tree::Null),
    {
        proof {
            use_type_invariant(&*self);
            lemma_entries_index(self.value@, i as int);
            lemma_entries_update(self.value@, i as int, Supervalue::Null);
        }
        let mut entries: Vec<(String, Supervalue)> = Vec::new();
        std::mem::swap(&mut entries, &mut self.value);
        let k = entries[i].0.clone();
        let mut r = Supervalue::Null;
        std::mem::swap(&mut r, &mut entries[i].1);
        assert(entries@ =~= old(self).value@.update(i as int, (old(self).value@[i as int].0, Supervalue::Null)));
        std::mem::swap(&mut entries, &mut self.value);
        r
    }
}

/// With unique keys the map has one key per entry.
pub proof fn lemma_entries_len(s: Seq<(String, Supervalue)>)
    requires
        keys_unique(s),
    ensures
        entries_tree(s).len() == s.len(),
    decreases s.len(),
{
    lemma_entries_finite(s);
    if s.len() == 0 {
        assert(entries_tree(s).dom() =~= Set::empty());
    } else {
        assert(keys_unique(s.drop_last()));
        lemma_entries_len(s.drop_last());
        lemma_entries_finite(s.drop_last());
        lemma_entries_dom(s.drop_last(), s.last().0@);
        assert(entries_tree(s).dom() =~= entries_tree(s.drop_last()).dom().insert(s.last().0@));
        if has_key(s.drop_last(), s.last().0@) {
            let j = choose|j: int| 0 <= j < s.len() - 1 && #[trigger] s.drop_last()[j].0@ == s.last().0@;
            assert(s[j].0@ == s[s.len() - 1].0@);
        }
    }
}

impl Supervalue {
    /// A copy of this value.
    pub fn clone_value(&self) -> (r: Supervalue)
        ensures
            r@ == self@,
        decreases self,
    {
        match self {
            Supervalue::Mapping(m) => {
                proof {
                    use_type_invariant(m);
                }
                let mut out: Vec<(String, Supervalue)> = Vec::new();
                let mut i: usize = 0;
                while i < m.value.len()
                    invariant
                        *self == Supervalue::Mapping(*m),
                        i <= m.value@.len(),
                        out@.len() == i,
                        forall|j: int|
                            0 <= j < i ==> #[trigger] out@[j].0@ == m.value@[j].0@ && out@[j].1.tree()
                                == m.value@[j].1.tree(),
                    decreases m.value@.len() - i,
                {
                    let k = m.value[i].0.clone();
                    proof {
                        assert(*self == Supervalue::Mapping(*m));
                        assert(decreases_to!(*self => (*self)->Mapping_0));
                        assert(decreases_to!(*m => m.value));
                        assert(decreases_to!(m.value => m.value@));
                        assert(decreases_to!(m.value@ => m.value@[i as int]));
                        assert(decreases_to!(m.value@[i as int] => m.value@[i as int].1));
                    }
                    let v = m.value[i].1.clone_value();
                    out.push((k, v));
                    i = i + 1;
                }
                proof {
                    lemma_entries_pointwise(out@, m.value@);
                    assert(keys_unique(out@)) by {
                        assert forall|a: int, b: int|
                            0 <= a < out@.len() && 0 <= b < out@.len() && a != b implies #[trigger] out@[a].0@
                            != #[trigger] out@[b].0@ by {
                            assert(m.value@[a].0@ != m.value@[b].0@);
                        }
                    }
                }
                Supervalue::Mapping(SupervalueMap { type_: m.type_, value: out })
            },
            Supervalue::Vec(v) => {
                let mut out: Vec<Supervalue> = Vec::new();
                let mut i: usize = 0;
                while i < v.value.len()
                    invariant
                        *self == Supervalue::Vec(*v),
                        i <= v.value@.len(),
                        out@.len() == i,
                        forall|j: int| 0 <= j < i ==> #[trigger] out@[j].tree() == v.value@[j].tree(),
                    decreases v.value@.len() - i,
                {
                    proof {
                        assert(*self == Supervalue::Vec(*v));
                        assert(decreases_to!(*self => (*self)->Vec_0));
                        assert(decreases_to!(*v => v.value));
                        assert(decreases_to!(v.value => v.value@));
                        assert(decreases_to!(v.value@ => v.value@[i as int]));
                    }
                    out.push(v.value[i].clone_value());
                    i = i + 1;
                }
                let r = SupervalueVec { type_: v.type_, value: out };
                proof {
                    lemma_vec_tree(*v);
                    lemma_vec_tree(r);
                    assert(trees_of(out@) =~= trees_of(v.value@));
                }
                Supervalue::Vec(r)
            },
            Supervalue::Null => Supervalue::Null,
            Supervalue::Bool(b) => Supervalue::Bool(*b),
            Supervalue::String(s) => Supervalue::String(s.clone()),
            Supervalue::JsonNumber(n) => Supervalue::JsonNumber(*n),
            Supervalue::YamlNumber(n) => Supervalue::YamlNumber(*n),
            Supervalue::TomlDatetime(d) => Supervalue::TomlDatetime(*d),
        }
    }
}

fn same_json_number(a: JsonNumber, b: JsonNumber) -> (r: bool)
    ensures
        r == (a == b),
{
    match (a, b) {
        (JsonNumber::PosInt(x), JsonNumber::PosInt(y)) => x == y,
        (JsonNumber::NegInt(x), JsonNumber::NegInt(y)) => x == y,
        (JsonNumber::Float(x), JsonNumber::Float(y)) => x == y,
        _ => false,
    }
}

fn same_yaml_number(a: YamlNumber, b: YamlNumber) -> (r: bool)
    ensures
        r == (a == b),
{
    match (a, b) {
        (YamlNumber::PosInt(x), YamlNumber::PosInt(y)) => x == y,
        (YamlNumber::NegInt(x), YamlNumber::NegInt(y)) => x == y,
        (YamlNumber::Float(x), YamlNumber::Float(y)) => x == y,
        _ => false,
    }
}

/// Whether two values stand for the same document.
pub fn equal_values(a: &Supervalue, b: &Supervalue) -> (r: bool)
    ensures
        r == (a@ == b@),
    decreases a,
{
    match (a, b) {
        (Supervalue::Mapping(x), Supervalue::Mapping(y)) => {
            proof {
                use_type_invariant(x);
                use_type_invariant(y);
            }
            if x.type_ != y.type_ {
                return false;
            }
            let mut i: usize = 0;
            while i < x.value.len()
                invariant
                    *a == Supervalue::Mapping(*x),
                    *b == Supervalue::Mapping(*y),
                    x.type_ == y.type_,
                    keys_unique(x.value@),
                    keys_unique(y.value@),
                    i <= x.value@.len(),
                    forall|j: int|
                        0 <= j < i ==> #[trigger] y.contents().contains_key(x.value@[j].0@)
                            && y.contents()[x.value@[j].0@] == x.value@[j].1.tree(),
                decreases x.value@.len() - i,
            {
                proof {
                    lemma_entries_index(x.value@, i as int);
                }
                match y.find(&x.value[i].0) {
                    Some(j) => {
                        proof {
                            lemma_entries_index(y.value@, j as int);
                            assert(decreases_to!(*a => (*a)->Mapping_0));
                            assert(decreases_to!(*x => x.value));
                            assert(decreases_to!(x.value => x.value@));
                            assert(decreases_to!(x.value@ => x.value@[i as int]));
                            assert(decreases_to!(x.value@[i as int] => x.value@[i as int].1));
                        }
                        if !equal_values(&x.value[i].1, &y.value[j].1) {
                            proof {
                                assert(x.contents()[x.value@[i as int].0@] != y.contents()[x.value@[i as int].0@]);
                            }
                            return false;
                        }
                        assert(y.contents().contains_key(x.value@[i as int].0@) && y.contents()[x.value@[i as int].0@]
                            == x.value@[i as int].1.tree());
                    },
                    None => {
                        proof {
                            assert(!y.contents().contains_key(x.value@[i as int].0@));
                        }
                        return false;
                    },
                }
                assert forall|j: int| 0 <= j < i + 1 implies #[trigger] y.contents().contains_key(x.value@[j].0@)
                    && y.contents()[x.value@[j].0@] == x.value@[j].1.tree() by {
                    if j < i {
                        assert(y.contents().contains_key(x.value@[j].0@));
                    }
                }
                i = i + 1;
            }
            let mut i: usize = 0;
            while i < y.value.len()
                invariant
                    *a == Supervalue::Mapping(*x),
                    *b == Supervalue::Mapping(*y),
                    keys_unique(x.value@),
                    keys_unique(y.value@),
                    i <= y.value@.len(),
                    forall|j: int| 0 <= j < i ==> #[trigger] x.contents().contains_key(y.value@[j].0@),
                    forall|j: int|
                        0 <= j < x.value@.len() ==> #[trigger] y.contents().contains_key(x.value@[j].0@)
                            && y.contents()[x.value@[j].0@] == x.value@[j].1.tree(),
                decreases y.value@.len() - i,
            {
                match x.find(&y.value[i].0) {
                    Some(_) => {},
                    None => {
                        proof {
                            lemma_entries_dom(y.value@, y.value@[i as int].0@);
                            assert(!x.contents().contains_key(y.value@[i as int].0@));
                        }
                        return false;
                    },
                }
                i = i + 1;
            }
            proof {
                assert forall|k: Seq<char>| #[trigger] x.contents().contains_key(k) implies y.contents().contains_key(k)
                    && y.contents()[k] == x.contents()[k] by {
                    lemma_entries_dom(x.value@, k);
                    let j = choose|j: int| 0 <= j < x.value@.len() && #[trigger] x.value@[j].0@ == k;
                    lemma_entries_index(x.value@, j);
                    assert(y.contents().contains_key(x.value@[j].0@));
                }
                assert forall|k: Seq<char>| #[trigger] y.contents().contains_key(k) implies x.contents().contains_key(k) by {
                    lemma_entries_dom(y.value@, k);
                    let j = choose|j: int| 0 <= j < y.value@.len() && #[trigger] y.value@[j].0@ == k;
                }
                assert(x.contents() =~= y.contents());
            }
            true
        },
        (Supervalue::Vec(x), Supervalue::Vec(y)) => {
            proof {
                lemma_vec_tree(*x);
                lemma_vec_tree(*y);
            }
            if x.type_ != y.type_ || x.value.len() != y.value.len() {
                proof {
                    assert(trees_of(x.value@).len() != trees_of(y.value@).len() || x.type_ != y.type_);
                }
                return false;
            }
            let mut i: usize = 0;
            while i < x.value.len()
                invariant
                    *a == Supervalue::Vec(*x),
                    *b == Supervalue::Vec(*y),
                    a@ == Tree::Sequence(x.type_, trees_of(x.value@)),
                    b@ == Tree::Sequence(y.type_, trees_of(y.value@)),
                    x.value@.len() == y.value@.len(),
                    i <= x.value@.len(),
                    forall|j: int| 0 <= j < i ==> #[trigger] x.value@[j].tree() == y.value@[j].tree(),
                decreases x.value@.len() - i,
            {
                proof {
                    assert(decreases_to!(*a => (*a)->Vec_0));
                    assert(decreases_to!(*x => x.value));
                    assert(decreases_to!(x.value => x.value@));
                    assert(decreases_to!(x.value@ => x.value@[i as int]));
                }
                if !equal_values(&x.value[i], &y.value[i]) {
                    proof {
                        assert(trees_of(x.value@)[i as int] != trees_of(y.value@)[i as int]);
                    }
                    return false;
                }
                i = i + 1;
            }
            proof {
                assert(trees_of(x.value@) =~= trees_of(y.value@));
            }
            true
        },
        (Supervalue::Null, Supervalue::Null) => true,
        (Supervalue::Bool(x), Supervalue::Bool(y)) => *x == *y,
        (Supervalue::String(x), Supervalue::String(y)) => *x == *y,
        (Supervalue::JsonNumber(x), Supervalue::JsonNumber(y)) => same_json_number(
            x.canonicalize(),
            y.canonicalize(),
        ),
        (Supervalue::YamlNumber(x), Supervalue::YamlNumber(y)) => same_yaml_number(
            x.canonicalize(),
            y.canonicalize(),
        ),
        (Supervalue::TomlDatetime(x), Supervalue::TomlDatetime(y)) => *x == *y,
        _ => false,
    }
}

impl PartialEq for Supervalue {
    fn eq(&self, other: &Supervalue) -> (r: bool) {
        equal_values(self, other)
    }
}

impl vstd::std_specs::cmp::PartialEqSpecImpl for Supervalue {
    open spec fn obeys_eq_spec() -> bool {
        true
    }

    open spec fn eq_spec(&self, other: &Supervalue) -> bool {
        self@ == other@
    }
}

impl Eq for Supervalue {

}

} // verus!
