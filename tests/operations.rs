use hammer_of_json::delete::delete;
use hammer_of_json::get::get;
use hammer_of_json::intersect::intersect;
use hammer_of_json::keep::keep;
use hammer_of_json::merge::merge;
use hammer_of_json::search_delete::search_delete;
use hammer_of_json::search_set::search_set;
use hammer_of_json::subtract::subtract;
use hammer_of_json::supervalue::{JsonNumber, Supervalue, SupervalueMap, SupervalueMapType};
use hammer_of_json::supervalue_path::DataPath;

fn obj(entries: Vec<(&str, Supervalue)>) -> Supervalue {
    let mut m = SupervalueMap::new(SupervalueMapType::Normal);
    for (k, v) in entries {
        m.insert(k.to_string(), v);
    }
    Supervalue::Mapping(m)
}

fn num(n: u64) -> Supervalue {
    Supervalue::JsonNumber(JsonNumber::PosInt(n))
}

fn text(s: &str) -> Supervalue {
    Supervalue::String(s.to_string())
}

fn path(segs: &[&str]) -> DataPath {
    DataPath(segs.iter().map(|s| s.to_string()).collect())
}

fn sample() -> Supervalue {
    obj(vec![
        ("a", obj(vec![("b", obj(vec![("c", num(4)), ("d", text("hello"))])), ("e", Supervalue::Bool(true))])),
        ("f", Supervalue::Bool(false)),
    ])
}

#[test]
fn delete_base() {
    let mut source = sample();
    delete(&mut source, &path(&["a", "b", "c"]), true).unwrap();
    assert_eq!(
        source,
        obj(vec![
            ("a", obj(vec![("b", obj(vec![("d", text("hello"))])), ("e", Supervalue::Bool(true))])),
            ("f", Supervalue::Bool(false)),
        ])
    );
}

#[test]
fn get_base() {
    let mut source = sample();
    let found = get(&mut source, &path(&["a", "b", "c"]), true).unwrap().unwrap();
    assert_eq!(found, num(4));
}

#[test]
fn intersect_base() {
    let mut source = sample();
    intersect(&mut source, &obj(vec![("a", obj(vec![("e", Supervalue::Bool(true)), ("q", text("gone"))]))]));
    assert_eq!(source, obj(vec![("a", obj(vec![("e", Supervalue::Bool(true))]))]));
}

#[test]
fn keep_base() {
    let mut source = sample();
    let mut out = Some(obj(vec![("a", obj(vec![("e", Supervalue::Bool(true))]))]));
    keep(&mut source, &mut out, &path(&["a", "b", "c"]), true).unwrap();
    assert_eq!(
        out.unwrap(),
        obj(vec![("a", obj(vec![("b", obj(vec![("c", num(4))])), ("e", Supervalue::Bool(true))]))])
    );
}

#[test]
fn merge_base() {
    let mut source = obj(vec![
        (
            "a",
            obj(vec![
                ("b", obj(vec![("c", num(4)), ("d", text("hello")), ("m", obj(vec![("a", num(14))]))])),
                ("e", Supervalue::Bool(true)),
            ]),
        ),
        ("f", Supervalue::Bool(false)),
    ]);
    merge(
        &mut source,
        obj(vec![
            ("b", num(44)),
            ("a", obj(vec![("b", obj(vec![("c", num(4)), ("m", num(3))])), ("e", obj(vec![("q", num(12))]))])),
        ]),
    );
    assert_eq!(
        source,
        obj(vec![
            ("b", num(44)),
            (
                "a",
                obj(vec![
                    ("b", obj(vec![("c", num(4)), ("d", text("hello")), ("m", num(3))])),
                    ("e", obj(vec![("q", num(12))])),
                ]),
            ),
            ("f", Supervalue::Bool(false)),
        ])
    );
}

#[test]
fn search_delete_base() {
    let mut source = sample();
    search_delete(&mut source, &text("hello"));
    assert_eq!(
        source,
        obj(vec![
            ("a", obj(vec![("b", obj(vec![("c", num(4))])), ("e", Supervalue::Bool(true))])),
            ("f", Supervalue::Bool(false)),
        ])
    );
}

#[test]
fn search_set_base() {
    let mut source = sample();
    search_set(&mut source, &text("hello"), &text("goodbye"));
    assert_eq!(
        source,
        obj(vec![
            ("a", obj(vec![("b", obj(vec![("c", num(4)), ("d", text("goodbye"))])), ("e", Supervalue::Bool(true))])),
            ("f", Supervalue::Bool(false)),
        ])
    );
}

#[test]
fn set_base() {
    let mut source = sample();
    hammer_of_json::set::set(&mut source, &path(&["a", "b", "c"]), &text("also_hello"), true).unwrap();
    assert_eq!(
        source,
        obj(vec![
            ("a", obj(vec![("b", obj(vec![("c", text("also_hello")), ("d", text("hello"))])), ("e", Supervalue::Bool(true))])),
            ("f", Supervalue::Bool(false)),
        ])
    );
}

#[test]
fn subtract_base() {
    let mut source = sample();
    subtract(&mut source, &obj(vec![("a", obj(vec![("b", obj(vec![("d", text("hello"))]))]))]), true).unwrap();
    assert_eq!(
        source,
        obj(vec![
            ("a", obj(vec![("b", obj(vec![("c", num(4))])), ("e", Supervalue::Bool(true))])),
            ("f", Supervalue::Bool(false)),
        ])
    );
}
