use comlink::value::{compare_bytes, entries_find, parse_index};
use comlink::{ArrayBuffer, BufferStore, Value};

fn num(n: f64) -> Value {
    Value::Number(n.to_bits())
}

fn keys(path: &[&str]) -> Vec<String> {
    path.iter().map(|s| s.to_string()).collect()
}

#[test]
fn typeof_matches_javascript() {
    assert_eq!(Value::Undefined.type_of(), "undefined");
    assert_eq!(Value::Bool(true).type_of(), "boolean");
    assert_eq!(num(1.0).type_of(), "number");
    assert_eq!(Value::string("x").type_of(), "string");
    // `typeof null === "object"`.
    assert_eq!(Value::Null.type_of(), "object");
    assert_eq!(Value::Array(vec![]).type_of(), "object");
    assert_eq!(Value::object(vec![]).type_of(), "object");
    assert_eq!(Value::Bytes(vec![1]).type_of(), "object");
}

#[test]
fn accessors_return_none_for_the_wrong_variant() {
    assert_eq!(num(1.0).as_number_bits(), Some(1.0f64.to_bits()));
    assert_eq!(Value::string("a").as_number_bits(), None);
    assert_eq!(Value::string("a").as_str(), Some("a"));
    assert_eq!(num(1.0).as_str(), None);
    assert_eq!(Value::Bool(true).as_bool(), Some(true));
    assert_eq!(Value::Null.as_bool(), None);
    assert_eq!(Value::Null.as_port(), None);
    assert_eq!(Value::Port(7).as_port(), Some(7));
    assert!(Value::Undefined.is_undefined());
    assert!(!Value::Null.is_undefined());
}

#[test]
fn object_lookup_only_works_on_objects() {
    let obj = Value::object(vec![("a", num(1.0))]);
    assert_eq!(obj.get("a"), Some(&num(1.0)));
    assert_eq!(obj.get("missing"), None);
    assert_eq!(num(1.0).get("a"), None);
}

#[test]
fn conversions_cover_the_scalar_types() {
    assert_eq!(Value::from(true), Value::Bool(true));
    assert_eq!(Value::from("s"), Value::string("s"));
    assert_eq!(Value::from(String::from("s")), Value::string("s"));
}

#[test]
fn numbers_compare_as_doubles() {
    let nan = Value::Number(f64::NAN.to_bits());
    assert_ne!(nan, nan.clone());
    assert_eq!(Value::Number(0.0f64.to_bits()), Value::Number((-0.0f64).to_bits()));
    assert_eq!(Value::Number(1.5f64.to_bits()), Value::Number(1.5f64.to_bits()));
    assert_ne!(Value::Number(1.5f64.to_bits()), Value::Number(2.5f64.to_bits()));
    let a = Value::object(vec![("x", Value::Number(0.0f64.to_bits()))]);
    let b = Value::object(vec![("x", Value::Number((-0.0f64).to_bits()))]);
    assert_eq!(a, b);
    assert_ne!(a, Value::object(vec![("y", Value::Number(0.0f64.to_bits()))]));
}

#[test]
fn writing_one_object_key_leaves_a_differently_spelled_one_alone() {
    let mut v = Value::object(vec![("1", Value::string("one"))]);
    assert!(v.set_path(&["01".to_string()], Value::string("zero-one")));
    assert_eq!(v.path(&["1".to_string()]), Some(&Value::string("one")));
    assert_eq!(v.path(&["01".to_string()]), Some(&Value::string("zero-one")));
}

#[test]
fn transferring_a_buffer_detaches_it() {
    let mut store = BufferStore::new();
    let buf = ArrayBuffer::new(&mut store, vec![1, 2, 3]);
    assert_eq!(buf.byte_length(&store), 3);
    assert!(!buf.is_detached(&store));
    assert_eq!(buf.to_vec(&store), vec![1, 2, 3]);

    let taken = buf.detach(&mut store);
    assert_eq!(taken, vec![1, 2, 3]);
    assert_eq!(buf.byte_length(&store), 0);
    assert!(buf.is_detached(&store));
}

#[test]
fn buffer_identity_is_distinct_from_equality() {
    let mut store = BufferStore::new();
    let a = ArrayBuffer::new(&mut store, vec![1, 2]);
    let b = ArrayBuffer::new(&mut store, vec![1, 2]);
    assert!(a.equals(&b, &store));
    assert!(!a.same(&b));
    assert!(a.same(&a.clone()));
    a.detach(&mut store);
    assert_eq!(a.byte_length(&store), 0);
    assert_eq!(b.byte_length(&store), 2);
    assert!(!a.equals(&b, &store));
}

#[test]
fn clones_share_a_buffer() {
    let mut store = BufferStore::new();
    let a = ArrayBuffer::new(&mut store, vec![9]);
    let b = a.clone();
    assert_eq!(b.detach(&mut store), vec![9]);
    assert!(a.is_detached(&store));
    assert_eq!(a.detach(&mut store), Vec::<u8>::new());
}

#[test]
fn values_holding_buffers_compare_by_bytes_given_the_store() {
    let mut store = BufferStore::new();
    let a = ArrayBuffer::new(&mut store, vec![1, 2]);
    let b = ArrayBuffer::new(&mut store, vec![1, 2]);
    let x = Value::Array(vec![Value::Buffer(a)]);
    let y = Value::Array(vec![Value::Buffer(b)]);
    assert!(x.equals(&y, &store));
    assert_ne!(x, y);
    assert_eq!(x, x.clone());
}

#[test]
fn objects_keep_keys_in_byte_order_and_the_last_value() {
    let obj = Value::object(vec![("b", num(1.0)), ("a", num(2.0)), ("b", num(3.0))]);
    match &obj {
        Value::Object(entries) => {
            let names: Vec<&str> = entries.iter().map(|(k, _)| k.as_str()).collect();
            assert_eq!(names, vec!["a", "b"]);
        }
        other => panic!("expected an object, got {:?}", other),
    }
    assert_eq!(obj.get("b"), Some(&num(3.0)));
    assert_eq!(obj.get("a"), Some(&num(2.0)));
}

#[test]
fn objects_compare_like_maps() {
    let a = Value::object(vec![("x", num(1.0)), ("y", num(2.0))]);
    let b = Value::object(vec![("y", num(2.0)), ("x", num(1.0))]);
    assert_eq!(a, b);
}

#[test]
fn can_walk_into_plain_nested_values() {
    let v = Value::object(vec![
        ("a", Value::object(vec![("v", num(4.0))])),
        ("list", Value::Array(vec![num(10.0), num(20.0)])),
    ]);
    assert_eq!(v.path(&keys(&["a", "v"])), Some(&num(4.0)));
    assert_eq!(v.path(&keys(&["list", "0"])), Some(&num(10.0)));
    assert_eq!(v.path(&keys(&["list", "1"])), Some(&num(20.0)));
    assert_eq!(v.path(&keys(&["list", "2"])), None);
    assert_eq!(v.path(&keys(&["nope"])), None);
    assert_eq!(v.path(&keys(&[])), Some(&v));
}

#[test]
fn array_indices_parse_like_usize() {
    assert_eq!(parse_index("0"), Some(0));
    assert_eq!(parse_index("17"), Some(17));
    assert_eq!(parse_index("+3"), Some(3));
    assert_eq!(parse_index("007"), Some(7));
    assert_eq!(parse_index(""), None);
    assert_eq!(parse_index("+"), None);
    assert_eq!(parse_index("-1"), None);
    assert_eq!(parse_index("1a"), None);
    assert_eq!(parse_index("99999999999999999999999"), None);
    let v = Value::Array(vec![num(1.0), num(2.0)]);
    assert_eq!(v.path(&keys(&["+1"])), Some(&num(2.0)));
}

#[test]
fn set_path_writes_and_reads_back() {
    let mut v = Value::object(vec![(
        "a",
        Value::object(vec![("list", Value::Array(vec![num(1.0), num(2.0)]))]),
    )]);
    assert!(v.set_path(&keys(&["a", "b"]), Value::string("new")));
    assert_eq!(v.path(&keys(&["a", "b"])), Some(&Value::string("new")));
    assert!(v.set_path(&keys(&["a", "list", "1"]), Value::Null));
    assert_eq!(v.path(&keys(&["a", "list", "1"])), Some(&Value::Null));
    assert_eq!(v.path(&keys(&["a", "list", "0"])), Some(&num(1.0)));
}

#[test]
fn set_path_fails_on_missing_links() {
    let mut v = Value::object(vec![("a", Value::Array(vec![num(1.0)]))]);
    let before = v.clone();
    assert!(!v.set_path(&keys(&[]), Value::Null));
    assert!(!v.set_path(&keys(&["x", "y"]), Value::Null));
    assert!(!v.set_path(&keys(&["a", "5"]), Value::Null));
    assert!(!v.set_path(&keys(&["a", "k"]), Value::Null));
    assert!(!v.set_path(&keys(&["a", "0", "z"]), Value::Null));
    assert_eq!(v, before);
}

#[test]
fn byte_strings_compare_lexicographically() {
    assert_eq!(compare_bytes(b"a", b"b"), -1);
    assert_eq!(compare_bytes(b"b", b"a"), 1);
    assert_eq!(compare_bytes(b"ab", b"ab"), 0);
    assert_eq!(compare_bytes(b"a", b"ab"), -1);
    assert_eq!(compare_bytes(b"", b""), 0);
    assert_eq!(compare_bytes(b"Z", b"a"), -1);
}

#[test]
fn entries_find_returns_the_first_match() {
    let entries = vec![
        ("a".to_string(), Value::Null),
        ("b".to_string(), Value::Bool(true)),
    ];
    assert_eq!(entries_find(&entries, "b"), Some(1));
    assert_eq!(entries_find(&entries, "c"), None);
}
