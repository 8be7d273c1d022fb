use comlink::thrown::{decode_thrown, encode_thrown};
use comlink::{Thrown, Value};

#[test]
fn errors_carry_name_message_and_stack() {
    let e = Thrown::error("OMG");
    assert_eq!(e.name(), Some("Error"));
    assert_eq!(e.message(), Some("OMG"));
    assert_eq!(e.stack(), Some("Error: OMG\n    at <comlink>"));
    assert!(e.is_error());
    assert_eq!(e.value(), None);

    let t = Thrown::type_error("bad");
    assert_eq!(t.name(), Some("TypeError"));
    assert_eq!(t.stack(), Some("TypeError: bad\n    at <comlink>"));

    let s = Thrown::error_with_stack("OMG", "Error: OMG\n    at knownFrame (x:1:1)");
    assert_eq!(s.stack(), Some("Error: OMG\n    at knownFrame (x:1:1)"));
    assert_eq!(s.name(), Some("Error"));
}

#[test]
fn thrown_values_are_not_errors() {
    let v = Thrown::Value(Value::Null);
    assert!(!v.is_error());
    assert_eq!(v.value(), Some(&Value::Null));
    assert_eq!(v.message(), None);
    assert_eq!(v.name(), None);
    assert_eq!(v.stack(), None);
}

#[test]
fn can_keep_the_stack_and_message_of_thrown_errors() {
    let stack = "Error: OMG\n    at knownFrame (tests/same_thread.rs:1:1)";
    let sent = Thrown::error_with_stack("OMG", stack);
    let back = decode_thrown(encode_thrown(sent.clone()));
    assert_eq!(back, sent);
    assert_eq!(back.message(), Some("OMG"));
    assert_eq!(back.stack(), Some(stack));
}

#[test]
fn can_rethrow_non_error_objects() {
    let obj = Value::object(vec![("test", Value::Bool(true))]);
    let back = decode_thrown(encode_thrown(Thrown::Value(obj.clone())));
    assert_eq!(back, Thrown::Value(obj));
    assert!(!back.is_error());
}

#[test]
fn can_rethrow_scalars() {
    let back = decode_thrown(encode_thrown(Thrown::Value(Value::string("oops"))));
    assert_eq!(back.value().map(|v| v.type_of()), Some("string"));
    assert_eq!(back, Thrown::Value(Value::string("oops")));
}

#[test]
fn can_rethrow_null() {
    let back = decode_thrown(encode_thrown(Thrown::Value(Value::Null)));
    assert_eq!(back.value().map(|v| v.type_of()), Some("object"));
    assert_eq!(back, Thrown::Value(Value::Null));
}

#[test]
fn thrown_errors_travel_as_is_error_and_value() {
    let v = encode_thrown(Thrown::type_error("nope"));
    assert_eq!(v.get("isError"), Some(&Value::Bool(true)));
    let inner = v.get("value").expect("a value");
    assert_eq!(inner.get("name"), Some(&Value::string("TypeError")));
    assert_eq!(inner.get("message"), Some(&Value::string("nope")));
}

#[test]
fn decoding_fills_in_missing_fields() {
    let bare = Value::object(vec![("isError", Value::Bool(true))]);
    let t = decode_thrown(bare);
    assert_eq!(t.name(), Some("Error"));
    assert_eq!(t.message(), Some(""));
    assert_eq!(t.stack(), Some(""));

    let nothing = decode_thrown(Value::Null);
    assert_eq!(nothing, Thrown::Value(Value::Undefined));
}
