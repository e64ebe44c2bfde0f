use baret::mutate::{do_set, pointer_mut};
use baret::pointer::Pointer;
use baret::resolve::do_get;
use baret::value::{Number, Value};

fn text(x: &str) -> Value {
    Value::Text(x.to_string())
}

fn num_f(x: f64) -> Value {
    Value::Number(Number::Float(x.to_bits()))
}

fn num_u(x: u64) -> Value {
    Value::Number(Number::PosInt(x))
}

fn obj(entries: Vec<(&str, Value)>) -> Value {
    Value::Object(entries.into_iter().map(|(k, v)| (k.to_string(), v)).collect())
}

#[test]
fn invalid_key_returns_the_input() {
    let data = obj(vec![("key", text("number"))]);
    let expected = obj(vec![("key", text("number"))]);
    assert_eq!(
        expected,
        do_set(data, &Pointer::new_unwrap("invalid key"), num_f(1.0))
    );
}

#[test]
fn replace_works() {
    let data = obj(vec![("key", text("number"))]);
    assert_eq!(
        obj(vec![("key", num_f(1.0))]),
        do_set(data, &Pointer::new_unwrap("/key"), num_f(1.0))
    );
}

#[test]
fn addition_works() {
    let data = obj(vec![("key", text("number"))]);
    assert_eq!(
        obj(vec![("key", text("number")), ("other", num_f(1.0))]),
        do_set(data, &Pointer::new_unwrap("/other"), num_f(1.0))
    );
}

#[test]
fn nested_addition_works() {
    let data = obj(vec![("key", text("number"))]);
    assert_eq!(
        obj(vec![
            ("key", text("number")),
            ("nested", obj(vec![("other", num_f(1.0))])),
        ]),
        do_set(data, &Pointer::new_unwrap("/nested/other"), num_f(1.0))
    );
}

#[test]
fn multi_nested_addition_works() {
    let data = obj(vec![("key", text("number"))]);
    let chain = obj(vec![(
        "b",
        obj(vec![(
            "c",
            obj(vec![(
                "d",
                obj(vec![(
                    "e",
                    obj(vec![("f", obj(vec![("g", obj(vec![("h", num_f(1.0))]))]))]),
                )]),
            )]),
        )]),
    )]);
    assert_eq!(
        obj(vec![("key", text("number")), ("a", chain)]),
        do_set(data, &Pointer::new_unwrap("/a/b/c/d/e/f/g/h"), num_f(1.0))
    );
}

#[test]
fn escaped_key() {
    let data = obj(vec![("key", text("number"))]);
    assert_eq!(
        Some(&text("number")),
        do_get(&data, &Pointer::new_unwrap("\\/key"))
    );
}

#[test]
fn works() {
    let data = obj(vec![("key", text("number"))]);
    assert_eq!(
        Some(&text("number")),
        do_get(&data, &Pointer::new_unwrap("/key"))
    );
}

#[test]
fn slice_array() {
    let data = obj(vec![(
        "key",
        Value::Array(vec![text("one"), text("two"), text("three")]),
    )]);
    assert_eq!(Some(&text("two")), do_get(&data, &Pointer::new_unwrap("/key/1")));
    assert_eq!(
        Some(&text("three")),
        do_get(&data, &Pointer::new_unwrap("/key/2"))
    );
}

#[test]
fn nested() {
    let data = obj(vec![(
        "key",
        Value::Array(vec![
            obj(vec![("one", num_u(1))]),
            obj(vec![("two", num_u(2))]),
            obj(vec![("three", num_u(3))]),
        ]),
    )]);
    assert_eq!(
        Some(&num_u(3)),
        do_get(&data, &Pointer::new_unwrap("/key/2/three"))
    );
    assert_eq!(
        Some(&num_u(2)),
        do_get(&data, &Pointer::new_unwrap("/key/1/two"))
    );
    assert_eq!(
        Some(&obj(vec![("one", num_u(1))])),
        do_get(&data, &Pointer::new_unwrap("/key/0"))
    );
}

#[test]
fn get_array_element() {
    let data = obj(vec![(
        "test",
        Value::Array(vec![num_u(1), num_u(2), num_u(3), num_u(4)]),
    )]);
    assert_eq!(Some(&num_u(3)), do_get(&data, &Pointer::new_unwrap("/test/2")));
}

#[test]
fn set_auto_creates_nested_objects() {
    let data = obj(vec![]);
    assert_eq!(
        obj(vec![("test", obj(vec![("key", num_f(1.0))]))]),
        do_set(data, &Pointer::new_unwrap("/test/key"), num_f(1.0))
    );
}

#[test]
fn set_out_of_range_index_changes_nothing() {
    let data = obj(vec![("k", Value::Array(vec![num_u(1), num_u(2)]))]);
    let mut doc = obj(vec![("k", Value::Array(vec![num_u(1), num_u(2)]))]);
    let ok = pointer_mut(&mut doc, "/k/5", num_u(9));
    assert!(!ok);
    assert_eq!(data, doc);
}

#[test]
fn set_invalid_index_changes_nothing() {
    let data = obj(vec![("k", Value::Array(vec![num_u(1), num_u(2)]))]);
    for bad in ["/k/01", "/k/+1", "/k/x", "/k/-1"] {
        let mut doc = obj(vec![("k", Value::Array(vec![num_u(1), num_u(2)]))]);
        assert!(!pointer_mut(&mut doc, bad, num_u(9)));
        assert_eq!(data, doc);
    }
}

#[test]
fn set_valid_index_replaces_element() {
    let data = obj(vec![("k", Value::Array(vec![num_u(1), num_u(2)]))]);
    assert_eq!(
        obj(vec![("k", Value::Array(vec![num_u(1), num_u(9)]))]),
        do_set(data, &Pointer::new_unwrap("/k/1"), num_u(9))
    );
}

#[test]
fn empty_pointer_replaces_root() {
    let mut doc = obj(vec![("key", text("number"))]);
    let ok = pointer_mut(&mut doc, "", num_u(5));
    assert!(ok);
    assert_eq!(num_u(5), doc);
}

#[test]
fn empty_pointer_gets_root() {
    let data = obj(vec![("key", text("number"))]);
    assert_eq!(Some(&data), do_get(&data, &Pointer::new_unwrap("")));
    assert_eq!(Some(&data), do_get(&data, &Pointer::new_unwrap("''")));
    assert_eq!(Some(&data), do_get(&data, &Pointer::new_unwrap("\"\"")));
}

#[test]
fn slash_pointer_addresses_empty_key() {
    let data = obj(vec![("", num_u(1))]);
    assert_eq!(Some(&num_u(1)), do_get(&data, &Pointer::new_unwrap("/")));
}

#[test]
fn scalar_on_the_way_becomes_object() {
    let data = obj(vec![("a", num_u(1))]);
    assert_eq!(
        obj(vec![("a", obj(vec![("b", num_u(2))]))]),
        do_set(data, &Pointer::new_unwrap("/a/b"), num_u(2))
    );
}

#[test]
fn get_failures_return_nothing() {
    let data = obj(vec![("a", Value::Array(vec![num_u(1)]))]);
    assert_eq!(None, do_get(&data, &Pointer::new_unwrap("missing slash")));
    assert_eq!(None, do_get(&data, &Pointer::new_unwrap("/b")));
    assert_eq!(None, do_get(&data, &Pointer::new_unwrap("/a/1")));
    assert_eq!(None, do_get(&data, &Pointer::new_unwrap("/a/01")));
    assert_eq!(None, do_get(&data, &Pointer::new_unwrap("/a/0/deeper")));
}

#[test]
fn escaped_tokens_round_trip() {
    let data = obj(vec![("a/b~c", num_u(7))]);
    assert_eq!(Some(&num_u(7)), do_get(&data, &Pointer::new_unwrap("/a~1b~0c")));
}
