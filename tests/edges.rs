use hammer_of_json::delete::delete;
use hammer_of_json::formats::{check_datetimes, datetimes_as_text};
use hammer_of_json::get::get;
use hammer_of_json::intersect::intersect;
use hammer_of_json::keep::keep;
use hammer_of_json::merge::merge;
use hammer_of_json::search_delete::search_delete;
use hammer_of_json::search_set::search_set;
use hammer_of_json::subtract::subtract;
use hammer_of_json::supervalue::{
    equal_values, JsonNumber, Supervalue, SupervalueMap, SupervalueMapType, SupervalueVec, SupervalueVecType,
    TomlDate, TomlDatetime, TomlOffset, TomlTime, YamlNumber,
};
use hammer_of_json::supervalue_path::{parse_index, DataPath};
use hammer_of_json::utils::{at_path, AtPathEarlyRes, AtPathEndRes, AtPathFound, AtPathPolicy, AtPathRoot};
use hammer_of_json::yaml_shapes::{from_yaml_mapping, from_yaml_tagged, yaml_mapping_pairs, yaml_tagged_parts};

fn obj(entries: Vec<(&str, Supervalue)>) -> Supervalue {
    let mut m = SupervalueMap::new(SupervalueMapType::Normal);
    for (k, v) in entries {
        m.insert(k.to_string(), v);
    }
    Supervalue::Mapping(m)
}

fn list(items: Vec<Supervalue>) -> Supervalue {
    Supervalue::Vec(SupervalueVec { type_: SupervalueVecType::Normal, value: items })
}

fn num(n: u64) -> Supervalue {
    Supervalue::JsonNumber(JsonNumber::PosInt(n))
}

fn text(s: &str) -> Supervalue {
    Supervalue::String(s.to_string())
}

fn path(segs: &[&str]) -> DataPath {
    DataPath(segs.iter().map(|s| s.to_string()).collect())
}

fn sample() -> Supervalue {
    obj(vec![
        ("a", obj(vec![("b", obj(vec![("c", num(4)), ("d", text("hello"))])), ("e", Supervalue::Bool(true))])),
        ("f", Supervalue::Bool(false)),
    ])
}

#[test]
fn set_then_get_returns_value() {
    let mut t = sample();
    let p = path(&["a", "x", "y"]);
    hammer_of_json::set::set(&mut t, &p, &num(9), true).unwrap();
    assert_eq!(get(&mut t, &p, false).unwrap(), Some(num(9)));
}

#[test]
fn set_through_scalar_creates_maps() {
    let mut t = sample();
    let p = path(&["f", "g"]);
    hammer_of_json::set::set(&mut t, &p, &text("v"), true).unwrap();
    assert_eq!(get(&mut t, &p, false).unwrap(), Some(text("v")));
    assert_eq!(get(&mut t, &path(&["f"]), false).unwrap(), Some(obj(vec![("g", text("v"))])));
}

#[test]
fn set_through_scalar_without_missing_ok_fails() {
    let mut t = sample();
    assert!(hammer_of_json::set::set(&mut t, &path(&["f", "g"]), &text("v"), false).is_err());
    assert!(hammer_of_json::set::set(&mut t, &path(&["a", "q", "r"]), &text("v"), false).is_err());
    assert!(hammer_of_json::set::set(&mut t, &path(&["a", "q"]), &text("v"), false).is_err());
    assert_eq!(t, sample());
}

#[test]
fn sequence_indices() {
    let mut t = obj(vec![("l", list(vec![num(1), obj(vec![("k", num(2))]), num(3)]))]);
    assert_eq!(get(&mut t, &path(&["l", "1", "k"]), false).unwrap(), Some(num(2)));
    hammer_of_json::set::set(&mut t, &path(&["l", "2"]), &text("three"), false).unwrap();
    assert_eq!(get(&mut t, &path(&["l", "2"]), false).unwrap(), Some(text("three")));
    assert!(hammer_of_json::set::set(&mut t, &path(&["l", "3"]), &num(0), true).is_err());
    assert!(get(&mut t, &path(&["l", "x"]), true).is_err());
    assert_eq!(get(&mut t, &path(&["l", "7"]), true).unwrap(), None);
    assert!(get(&mut t, &path(&["l", "7"]), false).is_err());
    delete(&mut t, &path(&["l", "0"]), false).unwrap();
    assert_eq!(get(&mut t, &path(&["l"]), false).unwrap(), Some(list(vec![obj(vec![("k", num(2))]), text("three")])));
}

#[test]
fn get_missing() {
    let mut t = sample();
    assert_eq!(get(&mut t, &path(&["a", "zz"]), true).unwrap(), None);
    assert!(get(&mut t, &path(&["a", "zz"]), false).is_err());
    let scalar = "Encountered primitive value at [\"f\", \"zz\"], before reaching end of path".to_string();
    assert_eq!(get(&mut t, &path(&["f", "zz"]), true), Err(scalar.clone()));
    assert_eq!(get(&mut t, &path(&["f", "zz"]), false), Err(scalar));
    assert_eq!(
        get(&mut t, &path(&["a", "zz"]), false),
        Err("Encountered object value at [\"a\"] but the key [\"zz\"] is missing".to_string())
    );
    assert_eq!(get(&mut t, &path(&[]), false).unwrap(), Some(sample()));
    assert_eq!(t, sample());
}

#[test]
fn delete_missing_and_root() {
    let mut t = sample();
    delete(&mut t, &path(&["a", "zz"]), true).unwrap();
    assert_eq!(t, sample());
    assert!(delete(&mut t, &path(&["a", "zz"]), false).is_err());
    assert!(delete(&mut t, &path(&["f", "g"]), true).is_err());
    let mut out = None;
    assert!(keep(&mut t, &mut out, &path(&["f", "g"]), true).is_err());
    assert_eq!(out, None);
    delete(&mut t, &path(&[]), false).unwrap();
    assert_eq!(t, Supervalue::Null);
}

#[test]
fn keep_projects_paths() {
    let mut source = sample();
    let mut out = None;
    keep(&mut source, &mut out, &path(&["a", "e"]), false).unwrap();
    keep(&mut source, &mut out, &path(&["f"]), false).unwrap();
    assert_eq!(out, Some(obj(vec![("a", obj(vec![("e", Supervalue::Bool(true))])), ("f", Supervalue::Bool(false))])));
    assert_eq!(source, obj(vec![("a", obj(vec![("b", obj(vec![("c", num(4)), ("d", text("hello"))]))]))]));
    assert!(keep(&mut source, &mut out, &path(&["zz"]), false).is_err());
    keep(&mut source, &mut out, &path(&[]), false).unwrap();
    assert_eq!(out, Some(obj(vec![("a", obj(vec![("e", Supervalue::Bool(true))])), ("f", Supervalue::Bool(false))])));
}

#[test]
fn merge_empty_identities() {
    let mut t = sample();
    merge(&mut t, obj(vec![]));
    assert_eq!(t, sample());
    let mut e = obj(vec![]);
    merge(&mut e, sample());
    assert_eq!(e, sample());
    let mut n = Supervalue::Null;
    merge(&mut n, obj(vec![]));
    assert_eq!(n, obj(vec![]));
}

#[test]
fn merge_scenario() {
    let mut dest = obj(vec![(
        "a",
        obj(vec![("b", obj(vec![("c", num(4)), ("m", obj(vec![("a", num(14))]))])), ("e", Supervalue::Bool(true))]),
    )]);
    merge(&mut dest, obj(vec![("a", obj(vec![("b", obj(vec![("m", num(3))])), ("e", obj(vec![("q", num(12))]))]))]));
    assert_eq!(
        dest,
        obj(vec![("a", obj(vec![("b", obj(vec![("c", num(4)), ("m", num(3))])), ("e", obj(vec![("q", num(12))]))]))])
    );
}

#[test]
fn intersect_both_orders() {
    let a = sample();
    let b = obj(vec![("a", obj(vec![("e", Supervalue::Bool(true)), ("q", text("gone"))])), ("f", num(1))]);
    let mut ab = a.clone_value();
    intersect(&mut ab, &b);
    let mut ba = b.clone_value();
    intersect(&mut ba, &a);
    assert_eq!(ab, obj(vec![("a", obj(vec![("e", Supervalue::Bool(true))]))]));
    assert_eq!(ab, ba);
    let mut s = num(1);
    intersect(&mut s, &sample());
    assert_eq!(s, Supervalue::Null);
    let mut m = sample();
    intersect(&mut m, &num(1));
    assert_eq!(m, Supervalue::Null);
}

#[test]
fn subtract_reports_missing_key() {
    let mut s = obj(vec![("a", num(1)), ("b", num(2))]);
    let r = subtract(&mut s, &obj(vec![("a", num(1)), ("c", num(3))]), false);
    assert_eq!(r, Err("- Trying to subtract path [[\"c\"]] but no value exists at that path".to_string()));
    assert_eq!(s, obj(vec![("b", num(2))]));
}

#[test]
fn subtract_equal_is_null() {
    let mut t = sample();
    subtract(&mut t, &sample(), false).unwrap();
    assert_eq!(t, Supervalue::Null);
}

#[test]
fn subtract_missing_key() {
    let mut t = sample();
    let other = obj(vec![("a", obj(vec![("zz", num(1)), ("e", Supervalue::Bool(true))])), ("yy", num(2))]);
    let err = subtract(&mut t, &other, false).unwrap_err();
    assert_eq!(
        err,
        "- Trying to subtract path [[\"a\", \"zz\"]] but no value exists at that path\n- Trying to subtract path [[\"yy\"]] but no value exists at that path"
    );
    let mut t2 = sample();
    subtract(&mut t2, &other, true).unwrap();
    assert_eq!(
        t2,
        obj(vec![("a", obj(vec![("b", obj(vec![("c", num(4)), ("d", text("hello"))]))])), ("f", Supervalue::Bool(false))])
    );
}

#[test]
fn search_set_counts_and_renames_keys() {
    let mut t = obj(vec![("a", obj(vec![("b", obj(vec![("c", num(4)), ("d", text("hello"))]))]))]);
    let n = search_set(&mut t, &text("hello"), &text("goodbye"));
    assert_eq!(n, 1);
    assert_eq!(t, obj(vec![("a", obj(vec![("b", obj(vec![("c", num(4)), ("d", text("goodbye"))]))]))]));
    let mut k = obj(vec![("hello", num(1)), ("x", list(vec![text("hello"), num(2)]))]);
    let n = search_set(&mut k, &text("hello"), &text("bye"));
    assert_eq!(n, 2);
    assert_eq!(k, obj(vec![("bye", num(1)), ("x", list(vec![text("bye"), num(2)]))]));
    let mut inside = obj(vec![("hello", list(vec![text("hello")]))]);
    assert_eq!(search_set(&mut inside, &text("hello"), &text("goodbye")), 1);
    assert_eq!(inside, obj(vec![("goodbye", list(vec![text("hello")]))]));
    let mut gone = obj(vec![("hello", list(vec![text("hello"), text("hello")])), ("k", num(1))]);
    assert_eq!(search_delete(&mut gone, &text("hello")), 1);
    assert_eq!(gone, obj(vec![("k", num(1))]));
    let mut r = text("hello");
    assert_eq!(search_set(&mut r, &text("hello"), &num(5)), 1);
    assert_eq!(r, num(5));
    let mut none = sample();
    assert_eq!(search_set(&mut none, &text("absent"), &num(5)), 0);
    assert_eq!(none, sample());
}

#[test]
fn search_delete_twice() {
    let mut t = obj(vec![
        ("hello", num(1)),
        ("x", list(vec![text("hello"), num(2), text("hello")])),
        ("y", text("hello")),
    ]);
    let first = search_delete(&mut t, &text("hello"));
    assert_eq!(first, 4);
    assert_eq!(t, obj(vec![("x", list(vec![num(2)]))]));
    let once = t.clone_value();
    let second = search_delete(&mut t, &text("hello"));
    assert_eq!(second, 0);
    assert_eq!(t, once);
    let mut root = text("hello");
    assert_eq!(search_delete(&mut root, &text("hello")), 1);
    assert_eq!(root, Supervalue::Null);
}

#[test]
fn search_delete_container_needle_not_idempotent() {
    let needle = list(vec![num(1)]);
    let mut t = list(vec![list(vec![num(1), list(vec![num(1)])])]);
    assert_eq!(search_delete(&mut t, &needle), 1);
    assert_eq!(t, list(vec![list(vec![num(1)])]));
    assert_eq!(search_delete(&mut t, &needle), 1);
}

#[test]
fn numbers_compare_by_format() {
    let j = Supervalue::JsonNumber(JsonNumber::PosInt(3));
    let y = Supervalue::YamlNumber(YamlNumber::PosInt(3));
    assert!(!equal_values(&j, &y));
    let pz = Supervalue::JsonNumber(JsonNumber::Float(0.0f64.to_bits()));
    let nz = Supervalue::JsonNumber(JsonNumber::Float((-0.0f64).to_bits()));
    assert_eq!(pz, nz);
    let n1 = Supervalue::YamlNumber(YamlNumber::Float(f64::NAN.to_bits()));
    let n2 = Supervalue::YamlNumber(YamlNumber::Float(0x7ff0_0000_0000_0001));
    assert_eq!(n1, n2);
    assert_ne!(Supervalue::JsonNumber(JsonNumber::Float(1.0f64.to_bits())), Supervalue::JsonNumber(JsonNumber::PosInt(1)));
    assert_eq!(JsonNumber::PosInt(7).as_i64(), Some(7));
    assert_eq!(JsonNumber::PosInt(u64::MAX).as_i64(), None);
    assert_eq!(YamlNumber::NegInt(-2).as_i64(), Some(-2));
    assert_eq!(YamlNumber::Float(1.5f64.to_bits()).as_i64(), None);
}

#[test]
fn maps_compare_whatever_the_order() {
    let a = obj(vec![("x", num(1)), ("y", num(2))]);
    let b = obj(vec![("y", num(2)), ("x", num(1))]);
    assert_eq!(a, b);
    assert_ne!(a, obj(vec![("x", num(1))]));
    let mut tagged = SupervalueMap::new(SupervalueMapType::YamlTag);
    tagged.insert("x".to_string(), num(1));
    tagged.insert("y".to_string(), num(2));
    assert_ne!(a, Supervalue::Mapping(tagged));
}

#[test]
fn indices_and_paths_parse() {
    assert_eq!(parse_index(&"12".to_string()), Some(12));
    assert_eq!(parse_index(&"".to_string()), None);
    assert_eq!(parse_index(&"+1".to_string()), None);
    assert_eq!(parse_index(&"99999999999999999999999".to_string()), Some(usize::MAX));
    assert_eq!(DataPath::parse(".a.b").unwrap().0, vec!["a".to_string(), "b".to_string()]);
    assert_eq!(DataPath::parse("").unwrap().0, Vec::<String>::new());
    assert_eq!(DataPath::parse(".").unwrap().0, vec!["".to_string()]);
    assert_eq!(DataPath::parse("[\"a.b\", \"c\"]").unwrap().0, vec!["a.b".to_string(), "c".to_string()]);
    assert!(DataPath::parse("[1]").unwrap_err().starts_with("Error parsing path as JSON array of strings: "));
    assert_eq!(DataPath::parse("a.b").unwrap_err(), "Paths must start with a [.]");
}

#[test]
fn at_path_policy_read() {
    let mut t = sample();
    let policy = AtPathPolicy {
        early_missing: AtPathEarlyRes::Fail,
        early_untraversable: AtPathEarlyRes::Fail,
        end_missing: AtPathEndRes::Fail,
        end_found: AtPathFound::Remove,
        root: AtPathRoot::Read,
    };
    let removed = at_path(&path(&["a", "b", "d"]), &mut t, &policy, &Supervalue::Null).unwrap();
    assert_eq!(removed, Some(text("hello")));
    assert_eq!(get(&mut t, &path(&["a", "b", "d"]), true).unwrap(), None);
}

#[test]
fn yaml_shapes() {
    let m = from_yaml_mapping(vec![(text("a"), num(1)), (text("b"), num(2))]);
    assert_eq!(m, obj(vec![("a", num(1)), ("b", num(2))]));
    let complex = from_yaml_mapping(vec![(num(1), text("one")), (text("b"), num(2))]);
    let expected = Supervalue::Vec(SupervalueVec {
        type_: SupervalueVecType::YamlMap,
        value: vec![list(vec![num(1), text("one")]), list(vec![text("b"), num(2)])],
    });
    assert_eq!(complex, expected);
    let pairs = yaml_mapping_pairs(&complex).unwrap();
    assert_eq!(pairs.len(), 2);
    assert_eq!(pairs[0].0, num(1));
    assert_eq!(pairs[1].1, num(2));
    assert!(yaml_mapping_pairs(&list(vec![num(1)])).is_none());
    let tagged_pair = Supervalue::Vec(SupervalueVec {
        type_: SupervalueVecType::YamlMap,
        value: vec![Supervalue::Vec(SupervalueVec { type_: SupervalueVecType::YamlMap, value: vec![num(1), num(2)] })],
    });
    assert_eq!(yaml_mapping_pairs(&tagged_pair).unwrap().len(), 1);
    let short_pair = Supervalue::Vec(SupervalueVec { type_: SupervalueVecType::YamlMap, value: vec![list(vec![num(1)])] });
    assert!(yaml_mapping_pairs(&short_pair).is_none());
    let t = from_yaml_tagged("!x".to_string(), num(3));
    let (tag, v) = yaml_tagged_parts(&t).unwrap();
    assert_eq!(tag, "!x");
    assert_eq!(v, num(3));
    assert!(yaml_tagged_parts(&obj(vec![("tag", text("!x")), ("value", num(3))])).is_none());
}

#[test]
fn datetimes_become_text() {
    let d = TomlDatetime {
        date: Some(TomlDate { year: 2024, month: 1, day: 2 }),
        time: Some(TomlTime { hour: 3, minute: 4, second: 5, nanosecond: 0 }),
        offset: Some(TomlOffset::Z),
    };
    let doc = obj(vec![("when", Supervalue::TomlDatetime(d)), ("l", list(vec![Supervalue::TomlDatetime(TomlDatetime {
        date: Some(TomlDate { year: 1999, month: 12, day: 31 }),
        time: None,
        offset: None,
    })]))]);
    let out = datetimes_as_text(doc);
    assert_eq!(out, obj(vec![("when", text("2024-01-02T03:04:05Z")), ("l", list(vec![text("1999-12-31")]))]));
}

#[test]
fn datetime_offsets_checked() {
    let at = |minutes: i16| {
        Supervalue::TomlDatetime(TomlDatetime {
            date: None,
            time: Some(TomlTime { hour: 1, minute: 0, second: 0, nanosecond: 0 }),
            offset: Some(TomlOffset::Custom(minutes)),
        })
    };
    assert!(check_datetimes(&list(vec![at(-90)])));
    assert!(!check_datetimes(&obj(vec![("x", at(i16::MIN))])));
    assert!(!check_datetimes(&at(1441)));
    assert_eq!(datetimes_as_text(at(-90)), text("01:00:00-01:30"));
}

#[test]
fn at_path_errors_name_the_prefix() {
    let mut t = obj(vec![("l", list(vec![num(1)]))]);
    let policy = AtPathPolicy {
        early_missing: AtPathEarlyRes::Return,
        early_untraversable: AtPathEarlyRes::Fail,
        end_missing: AtPathEndRes::Return,
        end_found: AtPathFound::Read,
        root: AtPathRoot::Read,
    };
    assert_eq!(
        at_path(&path(&["l", "x"]), &mut t, &policy, &Supervalue::Null),
        Err("Encountered sequence at [\"l\"] but the segment [\"x\"] is not an index".to_string())
    );
    assert_eq!(
        at_path(&path(&["l", "0", "k"]), &mut t, &policy, &Supervalue::Null),
        Err("Encountered primitive value at [\"l\", \"0\", \"k\"], before reaching end of path".to_string())
    );
    assert_eq!(
        hammer_of_json::set::set(&mut t, &path(&["l", "4"]), &num(0), true),
        Err("Encountered sequence at [\"l\"] but the index [\"4\"] is past its end".to_string())
    );
}
